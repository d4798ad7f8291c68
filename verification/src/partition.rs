use vstd::prelude::*;

use crate::graph::{
    lemma_consumer_list_bound, lemma_producer_before, ComputationGraph, OperationId, OperationType, Partition, Subgraph,
    TensorId,
};
use crate::input_format::DeviceParameters;
use crate::performance_model::{
    costs_nonneg, grid_cols, grid_fits, grid_rows, latency_fits, latency_result, lemma_latency_sum_is_stage_cost,
    red_len, stage_cost, subgraph_latency, sum_fits, total_latency,
};
use crate::rational::{frac_add, rational_add_checked, rational_lt, fraction_from_int, frac_le, Rational};
use crate::subgraph::{count_true, lemma_count_true_set};
use crate::tiling::{
    dims_bounded, is_best, is_candidate, is_feasible, peak_spec, search_tile_values, shaped, traffic_fits, SearchError,
    MAX_DIM,
};

verus! {

/// Whether the edge from tensor `t` into operation `op` keeps `t` in fast
/// memory: the latest decision recorded for it, `false` when there is none.
pub open spec fn edge_retained(edges: Seq<(TensorId, OperationId, bool)>, t: TensorId, op: OperationId) -> bool
    decreases edges.len(),
{
    if edges.len() == 0 {
        false
    } else if edges.last().0 == t && edges.last().1 == op {
        edges.last().2
    } else {
        edge_retained(edges.drop_last(), t, op)
    }
}

/// The latest decision recorded for the edge `(t, op)`.
fn retained_edge(edges: &Vec<(TensorId, OperationId, bool)>, t: TensorId, op: OperationId) -> (r: bool)
    ensures
        r == edge_retained(edges@, t, op),
{
    let mut i = edges.len();
    assert(edges@.take(i as int) =~= edges@);
    while i > 0
        invariant
            0 <= i <= edges.len(),
            edge_retained(edges@, t, op) == edge_retained(edges@.take(i as int), t, op),
        decreases i,
    {
        let e = edges[i - 1];
        proof {
            let s = edges@.take(i as int);
            assert(s.drop_last() =~= edges@.take(i - 1));
            assert(s.last() == e);
        }
        if e.0 == t && e.1 == op {
            return e.2;
        }
        i = i - 1;
    }
    false
}

/// `t` is produced by an operation of the subgraph.
pub open spec fn produced_inside(sg: Subgraph, t: TensorId) -> bool {
    sg.graph().producer_spec(t) matches Some(p) && sg.has(p)
}

/// A vector of `n` times `false`.
fn all_false(n: usize) -> (r: Vec<bool>)
    ensures
        r.len() == n,
        forall|k: int| 0 <= k < n ==> !r@[k],
        count_true(r@) == 0,
{
    let mut v: Vec<bool> = Vec::new();
    for i in 0..n
        invariant
            v.len() == i,
            forall|k: int| 0 <= k < i ==> !v@[k],
            count_true(v@) == 0,
    {
        let ghost v0 = v@;
        v.push(false);
        assert(v@.drop_last() =~= v0);
    }
    v
}

/// The operations marked in `visited`, in increasing id order.
fn marked_ops(visited: &Vec<bool>) -> (r: Vec<OperationId>)
    ensures
        r@.no_duplicates(),
        forall|k: int| 0 <= k < r.len() ==> (#[trigger] r@[k]).0 < visited.len(),
        forall|op: OperationId| r@.contains(op) <==> op.0 < visited.len() && visited@[op.0 as int],
{
    let mut r: Vec<OperationId> = Vec::new();
    for v in 0..visited.len()
        invariant
            forall|a: int, b: int| 0 <= a < b < r.len() ==> r@[a].0 < r@[b].0,
            forall|k: int| 0 <= k < r.len() ==> (#[trigger] r@[k]).0 < v,
            forall|op: OperationId| r@.contains(op) <==> op.0 < v && visited@[op.0 as int],
    {
        let ghost r0 = r@;
        if visited[v] {
            r.push(OperationId(v));
        }
        proof {
            assert forall|op: OperationId| r@.contains(op) <==> op.0 < v + 1 && visited@[op.0 as int] by {
                if r0.contains(op) {
                    let q = choose|q: int| 0 <= q < r0.len() && r0[q] == op;
                    assert(r@[q] == op);
                }
                if r@.contains(op) && !r0.contains(op) {
                    assert(r@[r@.len() - 1] == op);
                }
                if op.0 == v && visited@[op.0 as int] {
                    assert(r@[r@.len() - 1] == OperationId(v));
                }
            }
        }
    }
    proof {
        assert forall|a: int, b: int| 0 <= a < r.len() && 0 <= b < r.len() && a != b implies r@[a] != r@[b] by {
            if a < b {
                assert(r@[a].0 < r@[b].0);
            } else {
                assert(r@[b].0 < r@[a].0);
            }
        }
    }
    r
}

/// `x` is marked in `v`.
pub open spec fn marked(v: Seq<bool>, x: OperationId) -> bool {
    x.0 < v.len() && v[x.0 as int]
}

/// The edge from input `t` into `x` stops the backward walk: `t` is produced
/// inside the subgraph and the edge keeps it in fast memory.
pub open spec fn stops_at(sg: Subgraph, edges: Seq<(TensorId, OperationId, bool)>, x: OperationId, t: TensorId) -> bool {
    &&& sg.graph().ins()[x.0 as int].contains(t)
    &&& produced_inside(sg, t)
    &&& edge_retained(edges, t, x)
}

/// One step of the backward walk: from `x`, over an input of `x` produced
/// inside the subgraph whose edge is not kept, to its producer `y`.
pub open spec fn back_step(sg: Subgraph, edges: Seq<(TensorId, OperationId, bool)>, x: OperationId, y: OperationId) -> bool {
    exists|t: TensorId|
        #[trigger] sg.graph().ins()[x.0 as int].contains(t) && produced_inside(sg, t) && !edge_retained(edges, t, x)
            && sg.graph().producer_spec(t) == Some(y)
}

/// Step `i` of `p` is a step of the backward walk.
pub open spec fn back_link(sg: Subgraph, edges: Seq<(TensorId, OperationId, bool)>, p: Seq<OperationId>, i: int) -> bool {
    back_step(sg, edges, p[i], p[i + 1])
}

/// `p` is a backward walk from `start`.
pub open spec fn back_path(
    sg: Subgraph,
    edges: Seq<(TensorId, OperationId, bool)>,
    start: OperationId,
    p: Seq<OperationId>,
) -> bool {
    &&& p.len() >= 1
    &&& p[0] == start
    &&& forall|i: int| 0 <= i < p.len() - 1 ==> #[trigger] back_link(sg, edges, p, i)
}

/// The backward walk from `start` reaches `x`.
pub open spec fn walked_back(
    sg: Subgraph,
    edges: Seq<(TensorId, OperationId, bool)>,
    start: OperationId,
    x: OperationId,
) -> bool {
    exists|p: Seq<OperationId>| #[trigger] back_path(sg, edges, start, p) && p.last() == x
}

/// The backward walk from `start` stops at tensor `t`.
pub open spec fn walk_keeps(
    sg: Subgraph,
    edges: Seq<(TensorId, OperationId, bool)>,
    start: OperationId,
    t: TensorId,
) -> bool {
    exists|x: OperationId| #[trigger] walked_back(sg, edges, start, x) && stops_at(sg, edges, x, t)
}

/// `c` consumes a tensor the backward walk from `start` stops at: the
/// forward walk starts there.
pub open spec fn fwd_start(
    sg: Subgraph,
    edges: Seq<(TensorId, OperationId, bool)>,
    start: OperationId,
    c: OperationId,
) -> bool {
    exists|t: TensorId|
        #[trigger] walk_keeps(sg, edges, start, t) && t.0 < sg.graph().num_tensors() && sg.graph().cons()[t.0 as int].contains(c)
}

/// One step of the forward walk: from `x`, over an output of `x` not among
/// `outputs`, to a consumer `y` of it.
pub open spec fn fwd_step(g: ComputationGraph, outputs: Seq<TensorId>, x: OperationId, y: OperationId) -> bool {
    exists|t: TensorId|
        #[trigger] g.outs()[x.0 as int].contains(t) && !outputs.contains(t) && t.0 < g.num_tensors() && g.cons()[t.0 as int].contains(y)
}

/// Step `i` of `p` is a step of the forward walk.
pub open spec fn fwd_link(g: ComputationGraph, outputs: Seq<TensorId>, p: Seq<OperationId>, i: int) -> bool {
    fwd_step(g, outputs, p[i], p[i + 1])
}

/// `p` is a forward walk: it starts at a consumer of a tensor the backward
/// walk from `start` stops at, and passes only operations the backward walk
/// does not reach.
pub open spec fn fwd_path(
    sg: Subgraph,
    edges: Seq<(TensorId, OperationId, bool)>,
    start: OperationId,
    outputs: Seq<TensorId>,
    p: Seq<OperationId>,
) -> bool {
    &&& p.len() >= 1
    &&& fwd_start(sg, edges, start, p[0])
    &&& forall|i: int| 0 <= i < p.len() ==> !walked_back(sg, edges, start, #[trigger] p[i])
    &&& forall|i: int| 0 <= i < p.len() - 1 ==> #[trigger] fwd_link(sg.graph(), outputs, p, i)
}

/// The forward walk reaches `x`.
pub open spec fn walked_fwd(
    sg: Subgraph,
    edges: Seq<(TensorId, OperationId, bool)>,
    start: OperationId,
    outputs: Seq<TensorId>,
    x: OperationId,
) -> bool {
    exists|p: Seq<OperationId>| #[trigger] fwd_path(sg, edges, start, outputs, p) && p.last() == x
}

/// The operation the walks for `outputs` start from: the producer of the
/// first of them.
pub open spec fn walk_start(sg: Subgraph, outputs: Seq<TensorId>) -> OperationId {
    sg.graph().producer_spec(outputs[0]).unwrap()
}

/// The walks for `outputs` reach `x`: backward from the producer of the first
/// of them, stopping at the subgraph's inputs and at kept edges, then forward
/// from the consumers of the kept tensors, stopping at `outputs`.
pub open spec fn walk_reaches(
    sg: Subgraph,
    edges: Seq<(TensorId, OperationId, bool)>,
    outputs: Seq<TensorId>,
    x: OperationId,
) -> bool {
    walked_back(sg, edges, walk_start(sg, outputs), x) || walked_fwd(sg, edges, walk_start(sg, outputs), outputs, x)
}

/// A backward walk reaching `x` goes on to `y`.
proof fn lemma_back_extend(
    sg: Subgraph,
    edges: Seq<(TensorId, OperationId, bool)>,
    start: OperationId,
    x: OperationId,
    y: OperationId,
)
    requires
        walked_back(sg, edges, start, x),
        back_step(sg, edges, x, y),
    ensures
        walked_back(sg, edges, start, y),
{
    let p = choose|p: Seq<OperationId>| #[trigger] back_path(sg, edges, start, p) && p.last() == x;
    let q = p.push(y);
    assert forall|i: int| 0 <= i < q.len() - 1 implies #[trigger] back_link(sg, edges, q, i) by {
        if i < p.len() - 1 {
            assert(back_link(sg, edges, p, i));
            assert(q[i] == p[i] && q[i + 1] == p[i + 1]);
        } else {
            assert(q[i] == x && q[i + 1] == y);
        }
    }
    assert(back_path(sg, edges, start, q));
    assert(q.last() == y);
}

/// A forward walk reaching `x` goes on to a `y` the backward walk misses.
proof fn lemma_fwd_extend(
    sg: Subgraph,
    edges: Seq<(TensorId, OperationId, bool)>,
    start: OperationId,
    outputs: Seq<TensorId>,
    x: OperationId,
    y: OperationId,
)
    requires
        walked_fwd(sg, edges, start, outputs, x),
        fwd_step(sg.graph(), outputs, x, y),
        !walked_back(sg, edges, start, y),
    ensures
        walked_fwd(sg, edges, start, outputs, y),
{
    let p = choose|p: Seq<OperationId>| #[trigger] fwd_path(sg, edges, start, outputs, p) && p.last() == x;
    let q = p.push(y);
    assert forall|i: int| 0 <= i < q.len() implies !walked_back(sg, edges, start, #[trigger] q[i]) by {
        if i < p.len() {
            assert(q[i] == p[i]);
        }
    }
    assert forall|i: int| 0 <= i < q.len() - 1 implies #[trigger] fwd_link(sg.graph(), outputs, q, i) by {
        if i < p.len() - 1 {
            assert(fwd_link(sg.graph(), outputs, p, i));
            assert(q[i] == p[i] && q[i + 1] == p[i + 1]);
        } else {
            assert(q[i] == x && q[i + 1] == y);
        }
    }
    assert(q[0] == p[0]);
    assert(fwd_path(sg, edges, start, outputs, q));
    assert(q.last() == y);
}

/// Marks closed under backward steps, with `start` marked, cover the
/// backward walk.
proof fn lemma_back_marked(
    sg: Subgraph,
    edges: Seq<(TensorId, OperationId, bool)>,
    start: OperationId,
    v: Seq<bool>,
    p: Seq<OperationId>,
)
    requires
        back_path(sg, edges, start, p),
        marked(v, start),
        forall|x: OperationId, y: OperationId| #[trigger] marked(v, x) && #[trigger] back_step(sg, edges, x, y) ==> marked(v, y),
    ensures
        marked(v, p.last()),
    decreases p.len(),
{
    if p.len() > 1 {
        let q = p.drop_last();
        assert forall|i: int| 0 <= i < q.len() - 1 implies #[trigger] back_link(sg, edges, q, i) by {
            assert(back_link(sg, edges, p, i));
        }
        lemma_back_marked(sg, edges, start, v, q);
        assert(back_link(sg, edges, p, p.len() - 2));
        assert(q.last() == p[p.len() - 2]);
    }
}

/// Marks closed under forward steps from operations the backward walk
/// misses, with every start of the forward walk marked, cover the forward
/// walk.
proof fn lemma_fwd_marked(
    sg: Subgraph,
    edges: Seq<(TensorId, OperationId, bool)>,
    start: OperationId,
    outputs: Seq<TensorId>,
    v: Seq<bool>,
    p: Seq<OperationId>,
)
    requires
        fwd_path(sg, edges, start, outputs, p),
        forall|c: OperationId| #[trigger] fwd_start(sg, edges, start, c) ==> marked(v, c),
        forall|x: OperationId, y: OperationId|
            #[trigger] marked(v, x) && !walked_back(sg, edges, start, x) && #[trigger] fwd_step(sg.graph(), outputs, x, y)
                ==> marked(v, y),
    ensures
        marked(v, p.last()),
    decreases p.len(),
{
    if p.len() > 1 {
        let q = p.drop_last();
        assert forall|i: int| 0 <= i < q.len() - 1 implies #[trigger] fwd_link(sg.graph(), outputs, q, i) by {
            assert(fwd_link(sg.graph(), outputs, p, i));
        }
        assert forall|i: int| 0 <= i < q.len() implies !walked_back(sg, edges, start, #[trigger] q[i]) by {
            assert(q[i] == p[i]);
        }
        lemma_fwd_marked(sg, edges, start, outputs, v, q);
        assert(fwd_link(sg.graph(), outputs, p, p.len() - 2));
        assert(q.last() == p[p.len() - 2]);
        assert(!walked_back(sg, edges, start, p[p.len() - 2]));
    }
}

/// Walks back from the producer of `outputs[0]` inside `subgraph`, stopping at
/// the subgraph's inputs and at edges marked retained (whose tensors it
/// collects), then forward from the consumers of the collected tensors up to
/// the tensors of `outputs`. Succeeds when the operations reached produce
/// every tensor of `outputs`: it gives them as a subgraph, with the retained
/// tensors the walk stopped at.
fn try_extract_output_covering_subgraph<'a>(
    subgraph: &Subgraph<'a>,
    is_retained_edge: &Vec<(TensorId, OperationId, bool)>,
    outputs: &Vec<TensorId>,
) -> (r: Option<(Subgraph<'a>, Vec<TensorId>)>)
    requires
        subgraph.wf(),
        subgraph.graph().is_acyclic(),
        outputs.len() > 0,
        forall|k: int| 0 <= k < outputs.len() ==> produced_inside(*subgraph, #[trigger] outputs@[k]),
    ensures
        r is Some <==> forall|k: int|
            0 <= k < outputs.len() ==> walk_reaches(
                *subgraph,
                is_retained_edge@,
                outputs@,
                subgraph.graph().producer_spec(#[trigger] outputs@[k]).unwrap(),
            ),
        r matches Some((s, used)) ==> {
            let g = subgraph.graph();
            &&& s.wf()
            &&& s.graph() == g
            &&& forall|x: OperationId| s.has(x) <==> walk_reaches(*subgraph, is_retained_edge@, outputs@, x)
            &&& forall|t: TensorId|
                used@.contains(t) <==> walk_keeps(*subgraph, is_retained_edge@, walk_start(*subgraph, outputs@), t)
            &&& forall|k: int| 0 <= k < outputs.len() ==> s.has(g.producer_spec(#[trigger] outputs@[k]).unwrap())
            &&& used@.no_duplicates()
            &&& forall|k: int|
                0 <= k < used.len() ==> produced_inside(*subgraph, #[trigger] used@[k]) && g.pos(
                    g.producer_spec(used@[k]).unwrap(),
                ) < g.pos(g.producer_spec(outputs@[0]).unwrap())
        },
{
    let graph = subgraph.parent();
    let ghost sg = *subgraph;
    let ghost g = sg.graph();
    let ghost e = is_retained_edge@;
    let subgraph_inputs = subgraph.input_tensor_ids();
    let n = graph.num_operations();
    let start = graph.producer_id_of(outputs[0]).unwrap();
    let ghost ps = g.pos(start);
    let mut visited = all_false(n);
    let mut stack: Vec<OperationId> = Vec::new();
    stack.push(start);
    let mut used: Vec<TensorId> = Vec::new();
    proof {
        assert(produced_inside(sg, outputs@[0]));
        assert(stack@[0] == start);
        assert(start == walk_start(sg, outputs@));
        let p0 = seq![start];
        assert(back_path(sg, e, start, p0));
        assert(walked_back(sg, e, start, start));
    }
    while stack.len() > 0
        invariant
            subgraph.wf(),
            g.is_acyclic(),
            sg == *subgraph,
            g == sg.graph(),
            *graph == g,
            e == is_retained_edge@,
            n == g.num_ops(),
            visited.len() == n,
            forall|x: TensorId| subgraph_inputs@.contains(x) <==> sg.is_input_tensor(x),
            forall|v: int| 0 <= v < n && visited@[v] ==> sg.has(OperationId(v as usize)) && g.pos(OperationId(v as usize)) <= ps,
            forall|k: int| 0 <= k < stack.len() ==> sg.has(#[trigger] stack@[k]) && g.pos(stack@[k]) <= ps,
            used@.no_duplicates(),
            forall|k: int|
                0 <= k < used.len() ==> produced_inside(sg, #[trigger] used@[k]) && g.pos(
                    g.producer_spec(used@[k]).unwrap(),
                ) < ps,
            forall|x: OperationId| #[trigger] marked(visited@, x) ==> walked_back(sg, e, start, x),
            forall|k: int| 0 <= k < stack.len() ==> walked_back(sg, e, start, #[trigger] stack@[k]),
            forall|x: OperationId, y: OperationId|
                #[trigger] marked(visited@, x) && #[trigger] back_step(sg, e, x, y) ==> marked(visited@, y)
                    || stack@.contains(y),
            marked(visited@, start) || stack@.contains(start),
            forall|t: TensorId|
                #[trigger] used@.contains(t) <==> exists|x: OperationId| #[trigger] marked(visited@, x) && stops_at(sg, e, x, t),
        decreases n - count_true(visited@), stack.len(),
    {
        let ghost st0 = stack@;
        let op = stack.pop().unwrap();
        assert(op == st0.last());
        assert(stack@ == st0.drop_last());
        assert(sg.has(st0[st0.len() - 1]));
        assert(op.0 < n);
        proof {
            assert forall|y: OperationId| st0.contains(y) implies y == op || stack@.contains(y) by {
                let k = choose|k: int| 0 <= k < st0.len() && st0[k] == y;
                if k < st0.len() - 1 {
                    assert(stack@[k] == y);
                }
            }
            assert(walked_back(sg, e, start, st0[st0.len() - 1]));
        }
        if visited[op.0] {
            proof {
                assert(marked(visited@, op));
            }
            continue;
        }
        let ghost vis0 = visited@;
        let ghost used0 = used@;
        proof {
            lemma_count_true_set(visited@, op.0 as int);
        }
        visited.set(op.0, true);
        proof {
            assert(OperationId(op.0 as usize) == op);
            assert forall|x: OperationId| marked(visited@, x) <==> marked(vis0, x) || x == op by {}
            assert forall|x: OperationId, y: OperationId|
                #[trigger] marked(visited@, x) && x != op && #[trigger] back_step(sg, e, x, y) implies marked(visited@, y)
                    || stack@.contains(y) by {
                assert(marked(vis0, x));
                assert(marked(vis0, y) || st0.contains(y));
            }
            assert forall|t: TensorId|
                #[trigger] used@.contains(t) <==> exists|x: OperationId| #[trigger] marked(visited@, x) && x != op && stops_at(sg, e, x, t) by {
                if used@.contains(t) {
                    let x = choose|x: OperationId| #[trigger] marked(vis0, x) && stops_at(sg, e, x, t);
                    assert(marked(visited@, x) && x != op);
                }
                if exists|x: OperationId| #[trigger] marked(visited@, x) && x != op && stops_at(sg, e, x, t) {
                    let x = choose|x: OperationId| #[trigger] marked(visited@, x) && x != op && stops_at(sg, e, x, t);
                    assert(marked(vis0, x));
                }
            }
        }
        let op_inputs = graph.input_ids_for(op);
        for q in 0..op_inputs.len()
            invariant
                subgraph.wf(),
                g.is_acyclic(),
                sg == *subgraph,
                g == sg.graph(),
                *graph == g,
                e == is_retained_edge@,
                sg.has(op),
                op.0 < n,
                g.pos(op) <= ps,
                op_inputs@ == g.ins()[op.0 as int],
                visited.len() == n,
                marked(visited@, op),
                walked_back(sg, e, start, op),
                forall|x: TensorId| subgraph_inputs@.contains(x) <==> sg.is_input_tensor(x),
                forall|k: int| 0 <= k < stack.len() ==> sg.has(#[trigger] stack@[k]) && g.pos(stack@[k]) <= ps,
                used@.no_duplicates(),
                forall|k: int|
                    0 <= k < used.len() ==> produced_inside(sg, #[trigger] used@[k]) && g.pos(
                        g.producer_spec(used@[k]).unwrap(),
                    ) < ps,
                forall|k: int| 0 <= k < stack.len() ==> walked_back(sg, e, start, #[trigger] stack@[k]),
                forall|x: OperationId, y: OperationId|
                    #[trigger] marked(visited@, x) && x != op && #[trigger] back_step(sg, e, x, y) ==> marked(visited@, y)
                        || stack@.contains(y),
                forall|m: int|
                    0 <= m < q && produced_inside(sg, #[trigger] op_inputs@[m]) && !edge_retained(e, op_inputs@[m], op)
                        ==> marked(visited@, g.producer_spec(op_inputs@[m]).unwrap()) || stack@.contains(
                        g.producer_spec(op_inputs@[m]).unwrap(),
                    ),
                marked(visited@, start) || stack@.contains(start),
                forall|t: TensorId|
                    #[trigger] used@.contains(t) <==> (exists|x: OperationId|
                        #[trigger] marked(visited@, x) && x != op && stops_at(sg, e, x, t)) || (op_inputs@.take(q as int).contains(t)
                        && stops_at(sg, e, op, t)),
        {
            let input_id = op_inputs[q];
            let ghost stk0 = stack@;
            let ghost u0 = used@;
            assert(g.ins()[op.0 as int].contains(input_id));
            proof {
                assert(op_inputs@.take(q + 1) =~= op_inputs@.take(q as int).push(input_id));
            }
            if !crate::subgraph::contains_tensor(&subgraph_inputs, input_id) {
                proof {
                    assert(!sg.is_input_tensor(input_id));
                    assert(sg.has(op) && g.ins()[op.0 as int].contains(input_id));
                    assert(produced_inside(sg, input_id));
                    lemma_producer_before(&g, op.0 as int, input_id);
                    assert(OperationId(op.0 as usize) == op);
                }
                if retained_edge(is_retained_edge, input_id, op) {
                    if !crate::subgraph::contains_tensor(&used, input_id) {
                        used.push(input_id);
                        proof {
                            assert(used@ == u0.push(input_id));
                        }
                        proof {
                            assert forall|a: int, b: int| 0 <= a < b < used.len() implies used@[a] != used@[b] by {
                                if b == used.len() - 1 {
                                    if used@[a] == input_id {
                                        assert(u0[a] == input_id);
                                        assert(u0.contains(input_id));
                                    }
                                } else {
                                    assert(used@[a] == u0[a] && used@[b] == u0[b]);
                                }
                            }
                        }
                    }
                    proof {
                        assert(stops_at(sg, e, op, input_id));
                        assert forall|t: TensorId| #[trigger] used@.contains(t) <==> u0.contains(t) || t == input_id by {
                            if used@.contains(t) && used@ != u0 {
                                let k = choose|k: int| 0 <= k < used@.len() && used@[k] == t;
                                if k < u0.len() {
                                    assert(u0[k] == t);
                                }
                            }
                            if u0.contains(t) && used@ != u0 {
                                let k = choose|k: int| 0 <= k < u0.len() && u0[k] == t;
                                assert(used@[k] == t);
                            }
                            if t == input_id && used@ != u0 {
                                assert(used@[used.len() - 1] == t);
                            }
                        }
                    }
                } else {
                    let producer = graph.producer_id_of(input_id).unwrap();
                    stack.push(producer);
                    proof {
                        assert(!stops_at(sg, e, op, input_id));
                        assert(used@ == u0);
                        assert(back_step(sg, e, op, producer));
                        lemma_back_extend(sg, e, start, op, producer);
                        assert(stack@ == stk0.push(producer));
                        assert forall|y: OperationId| stk0.contains(y) implies stack@.contains(y) by {
                            let k = choose|k: int| 0 <= k < stk0.len() && stk0[k] == y;
                            assert(stack@[k] == y);
                        }
                        assert(stack@[stack.len() - 1] == producer);
                    }
                }
            } else {
                proof {
                    assert(sg.is_input_tensor(input_id));
                    assert(!produced_inside(sg, input_id));
                    assert(!stops_at(sg, e, op, input_id));
                    assert(used@ == u0);
                }
            }
            proof {
                assert forall|k: int| 0 <= k < stack.len() implies walked_back(sg, e, start, #[trigger] stack@[k]) by {
                    if k < stk0.len() {
                        assert(stack@[k] == stk0[k]);
                    }
                }
                assert forall|m: int|
                    0 <= m < q + 1 && produced_inside(sg, #[trigger] op_inputs@[m]) && !edge_retained(e, op_inputs@[m], op)
                        implies marked(visited@, g.producer_spec(op_inputs@[m]).unwrap()) || stack@.contains(
                        g.producer_spec(op_inputs@[m]).unwrap(),
                    ) by {
                    let y = g.producer_spec(op_inputs@[m]).unwrap();
                    if m < q && stk0.contains(y) {
                        let k = choose|k: int| 0 <= k < stk0.len() && stk0[k] == y;
                        assert(stack@[k] == y);
                    }
                    if m == q {
                        assert(op_inputs@[m] == input_id);
                    }
                }
                assert forall|x: OperationId, y: OperationId|
                    #[trigger] marked(visited@, x) && x != op && #[trigger] back_step(sg, e, x, y) implies marked(visited@, y)
                        || stack@.contains(y) by {
                    if stk0.contains(y) {
                        let k = choose|k: int| 0 <= k < stk0.len() && stk0[k] == y;
                        assert(stack@[k] == y);
                    }
                }
                if stk0.contains(start) {
                    let k = choose|k: int| 0 <= k < stk0.len() && stk0[k] == start;
                    assert(stack@[k] == start);
                }
                assert(forall|t: TensorId| #[trigger] used@.contains(t) <==> u0.contains(t) || (t == input_id && stops_at(sg, e, op, t)));
                assert forall|t: TensorId|
                    #[trigger] used@.contains(t) <==> (exists|x: OperationId|
                        #[trigger] marked(visited@, x) && x != op && stops_at(sg, e, x, t)) || (op_inputs@.take(q + 1).contains(
                        t,
                    ) && stops_at(sg, e, op, t)) by {
                    assert(u0.contains(t) <==> (exists|x: OperationId|
                        #[trigger] marked(visited@, x) && x != op && stops_at(sg, e, x, t)) || (op_inputs@.take(q as int).contains(
                        t,
                    ) && stops_at(sg, e, op, t)));
                    let tk0 = op_inputs@.take(q as int);
                    let tk1 = op_inputs@.take(q + 1);
                    if tk1.contains(t) && t != input_id {
                        let m = choose|m: int| 0 <= m < tk1.len() && tk1[m] == t;
                        assert(tk0[m] == t);
                    }
                    if tk0.contains(t) {
                        let m = choose|m: int| 0 <= m < tk0.len() && tk0[m] == t;
                        assert(tk1[m] == t);
                    }
                    if t == input_id {
                        assert(tk1[q as int] == t);
                    }
                }
            }
        }
        proof {
            assert(op_inputs@.take(op_inputs.len() as int) =~= op_inputs@);
            assert forall|x: OperationId, y: OperationId|
                #[trigger] marked(visited@, x) && #[trigger] back_step(sg, e, x, y) implies marked(visited@, y)
                    || stack@.contains(y) by {
                if x == op {
                    let t = choose|t: TensorId|
                        #[trigger] g.ins()[x.0 as int].contains(t) && produced_inside(sg, t) && !edge_retained(e, t, x)
                            && g.producer_spec(t) == Some(y);
                    let m = choose|m: int| 0 <= m < op_inputs.len() && op_inputs@[m] == t;
                    assert(produced_inside(sg, op_inputs@[m]));
                }
            }
            assert forall|x: OperationId| #[trigger] marked(visited@, x) implies walked_back(sg, e, start, x) by {
                if x != op {
                    assert(marked(vis0, x));
                }
            }
            assert forall|t: TensorId|
                #[trigger] used@.contains(t) <==> exists|x: OperationId| #[trigger] marked(visited@, x) && stops_at(sg, e, x, t) by {
                if exists|x: OperationId| #[trigger] marked(visited@, x) && stops_at(sg, e, x, t) {
                    let x = choose|x: OperationId| #[trigger] marked(visited@, x) && stops_at(sg, e, x, t);
                    if x == op {
                        assert(g.ins()[op.0 as int].contains(t));
                        assert(op_inputs@.contains(t));
                    }
                }
            }
        }
    }
    let ghost v1 = visited@;
    proof {
        assert(marked(v1, start));
        assert forall|x: OperationId| marked(v1, x) <==> walked_back(sg, e, start, x) by {
            if walked_back(sg, e, start, x) {
                let p = choose|p: Seq<OperationId>| #[trigger] back_path(sg, e, start, p) && p.last() == x;
                lemma_back_marked(sg, e, start, v1, p);
            }
        }
        assert forall|t: TensorId| used@.contains(t) <==> walk_keeps(sg, e, start, t) by {
            if walk_keeps(sg, e, start, t) {
                let x = choose|x: OperationId| #[trigger] walked_back(sg, e, start, x) && stops_at(sg, e, x, t);
                assert(marked(v1, x));
            }
        }
    }
    let mut stack2: Vec<OperationId> = Vec::new();
    for u in 0..used.len()
        invariant
            subgraph.wf(),
            sg == *subgraph,
            g == sg.graph(),
            *graph == g,
            e == is_retained_edge@,
            n == g.num_ops(),
            forall|t: TensorId| used@.contains(t) <==> walk_keeps(sg, e, start, t),
            forall|k: int| 0 <= k < used.len() ==> produced_inside(sg, #[trigger] used@[k]),
            forall|k: int| 0 <= k < stack2.len() ==> (#[trigger] stack2@[k]).0 < n,
            forall|k: int| 0 <= k < stack2.len() ==> fwd_start(sg, e, start, #[trigger] stack2@[k]),
            forall|w: int, c: OperationId|
                0 <= w < u && #[trigger] g.cons()[used@[w].0 as int].contains(c) ==> stack2@.contains(c),
    {
        let t = used[u];
        assert(produced_inside(sg, used@[u as int]));
        assert(t.0 < g.num_tensors());
        let consumers = graph.consumer_ids_for(t);
        let ghost s0 = stack2@;
        proof {
            assert forall|k: int| 0 <= k < consumers.len() implies (#[trigger] consumers@[k]).0 < n by {
                assert(g.cons()[t.0 as int] == crate::graph::consumer_list(g.ins(), TensorId(t.0)));
                lemma_consumer_list_bound(g.ins(), TensorId(t.0), k);
            }
            assert(used@.contains(t));
            assert(walk_keeps(sg, e, start, t));
        }
        for c in 0..consumers.len()
            invariant
                sg == *subgraph,
                g == sg.graph(),
                e == is_retained_edge@,
                consumers@ == g.cons()[t.0 as int],
                t.0 < g.num_tensors(),
                walk_keeps(sg, e, start, t),
                forall|k: int| 0 <= k < consumers.len() ==> (#[trigger] consumers@[k]).0 < n,
                forall|k: int| 0 <= k < stack2.len() ==> (#[trigger] stack2@[k]).0 < n,
                forall|k: int| 0 <= k < stack2.len() ==> fwd_start(sg, e, start, #[trigger] stack2@[k]),
                stack2.len() == s0.len() + c,
                forall|k: int| 0 <= k < s0.len() ==> stack2@[k] == s0[k],
                forall|k: int| 0 <= k < c ==> stack2@[s0.len() + k] == consumers@[k],
        {
            stack2.push(consumers[c]);
            proof {
                assert(g.cons()[t.0 as int].contains(consumers@[c as int]));
                assert(fwd_start(sg, e, start, consumers@[c as int]));
            }
        }
        proof {
            assert forall|w: int, c: OperationId|
                0 <= w < u + 1 && #[trigger] g.cons()[used@[w].0 as int].contains(c) implies stack2@.contains(c) by {
                if w < u {
                    let k = choose|k: int| 0 <= k < s0.len() && s0[k] == c;
                    assert(stack2@[k] == c);
                } else {
                    let k = choose|k: int| 0 <= k < consumers.len() && consumers@[k] == c;
                    assert(stack2@[s0.len() + k] == c);
                }
            }
        }
    }
    proof {
        assert forall|c: OperationId| #[trigger] fwd_start(sg, e, start, c) implies marked(visited@, c) || stack2@.contains(c) by {
            let t = choose|t: TensorId|
                #[trigger] walk_keeps(sg, e, start, t) && t.0 < g.num_tensors() && g.cons()[t.0 as int].contains(c);
            assert(used@.contains(t));
            let w = choose|w: int| 0 <= w < used.len() && used@[w] == t;
            assert(g.cons()[used@[w].0 as int].contains(c));
        }
    }
    while stack2.len() > 0
        invariant
            subgraph.wf(),
            sg == *subgraph,
            g == sg.graph(),
            *graph == g,
            e == is_retained_edge@,
            n == g.num_ops(),
            visited.len() == n,
            forall|k: int| 0 <= k < stack2.len() ==> (#[trigger] stack2@[k]).0 < n,
            forall|x: OperationId| walked_back(sg, e, start, x) ==> #[trigger] marked(visited@, x),
            forall|x: OperationId|
                #[trigger] marked(visited@, x) ==> walked_back(sg, e, start, x) || walked_fwd(sg, e, start, outputs@, x),
            forall|k: int|
                0 <= k < stack2.len() ==> walked_back(sg, e, start, #[trigger] stack2@[k]) || walked_fwd(
                    sg,
                    e,
                    start,
                    outputs@,
                    stack2@[k],
                ) || fwd_start(sg, e, start, stack2@[k]),
            forall|x: OperationId, y: OperationId|
                #[trigger] marked(visited@, x) && !walked_back(sg, e, start, x) && #[trigger] fwd_step(g, outputs@, x, y)
                    ==> marked(visited@, y) || stack2@.contains(y),
            forall|c: OperationId| #[trigger] fwd_start(sg, e, start, c) ==> marked(visited@, c) || stack2@.contains(c),
        decreases n - count_true(visited@), stack2.len(),
    {
        let ghost st0 = stack2@;
        let op = stack2.pop().unwrap();
        assert(op == st0.last());
        assert(stack2@ == st0.drop_last());
        assert(st0[st0.len() - 1].0 < n);
        proof {
            assert forall|y: OperationId| st0.contains(y) implies y == op || stack2@.contains(y) by {
                let k = choose|k: int| 0 <= k < st0.len() && st0[k] == y;
                if k < st0.len() - 1 {
                    assert(stack2@[k] == y);
                }
            }
        }
        if visited[op.0] {
            proof {
                assert(marked(visited@, op));
            }
            continue;
        }
        let ghost vis0 = visited@;
        proof {
            lemma_count_true_set(visited@, op.0 as int);
            assert(!marked(vis0, op));
            assert(!walked_back(sg, e, start, op));
            let w = st0[st0.len() - 1];
            assert(w == op);
            if !walked_fwd(sg, e, start, outputs@, op) {
                assert(fwd_start(sg, e, start, op));
                let p = seq![op];
                assert(fwd_path(sg, e, start, outputs@, p));
            }
            assert(walked_fwd(sg, e, start, outputs@, op));
        }
        visited.set(op.0, true);
        proof {
            assert(OperationId(op.0 as usize) == op);
            assert forall|x: OperationId| marked(visited@, x) <==> marked(vis0, x) || x == op by {}
            assert forall|x: OperationId, y: OperationId|
                #[trigger] marked(visited@, x) && x != op && !walked_back(sg, e, start, x) && #[trigger] fwd_step(
                    g,
                    outputs@,
                    x,
                    y,
                ) implies marked(visited@, y) || stack2@.contains(y) by {
                assert(marked(vis0, x));
                assert(marked(vis0, y) || st0.contains(y));
            }
            assert forall|c: OperationId| #[trigger] fwd_start(sg, e, start, c) implies marked(visited@, c) || stack2@.contains(c) by {
                assert(marked(vis0, c) || st0.contains(c));
            }
            assert forall|k: int|
                0 <= k < stack2.len() implies walked_back(sg, e, start, #[trigger] stack2@[k]) || walked_fwd(
                    sg,
                    e,
                    start,
                    outputs@,
                    stack2@[k],
                ) || fwd_start(sg, e, start, stack2@[k]) by {
                assert(stack2@[k] == st0[k]);
            }
        }
        let op_outputs = graph.output_ids_for(op);
        for q in 0..op_outputs.len()
            invariant
                subgraph.wf(),
                sg == *subgraph,
                g == sg.graph(),
                *graph == g,
                e == is_retained_edge@,
                n == g.num_ops(),
                op.0 < n,
                op_outputs@ == g.outs()[op.0 as int],
                visited.len() == n,
                marked(visited@, op),
                !walked_back(sg, e, start, op),
                walked_fwd(sg, e, start, outputs@, op),
                forall|k: int| 0 <= k < stack2.len() ==> (#[trigger] stack2@[k]).0 < n,
                forall|k: int|
                    0 <= k < stack2.len() ==> walked_back(sg, e, start, #[trigger] stack2@[k]) || walked_fwd(
                        sg,
                        e,
                        start,
                        outputs@,
                        stack2@[k],
                    ) || fwd_start(sg, e, start, stack2@[k]),
                forall|x: OperationId, y: OperationId|
                    #[trigger] marked(visited@, x) && x != op && !walked_back(sg, e, start, x) && #[trigger] fwd_step(
                        g,
                        outputs@,
                        x,
                        y,
                    ) ==> marked(visited@, y) || stack2@.contains(y),
                forall|m: int, y: OperationId|
                    0 <= m < q && !outputs@.contains(#[trigger] op_outputs@[m]) && op_outputs@[m].0 < g.num_tensors()
                        && #[trigger] g.cons()[op_outputs@[m].0 as int].contains(y) ==> marked(visited@, y)
                        || stack2@.contains(y),
                forall|c: OperationId| #[trigger] fwd_start(sg, e, start, c) ==> marked(visited@, c) || stack2@.contains(c),
        {
            let out = op_outputs[q];
            let consumers = if crate::subgraph::contains_tensor(outputs, out) {
                &[]
            } else {
                graph.consumer_ids_for(out)
            };
            let ghost s0 = stack2@;
            proof {
                assert(g.outs()[op.0 as int].contains(out));
                assert(out.0 < g.num_tensors()) by {
                    assert(g.outs()[op.0 as int][q as int] == out);
                }
                assert forall|k: int| 0 <= k < consumers.len() implies (#[trigger] consumers@[k]).0 < n by {
                    assert(g.cons()[out.0 as int] == crate::graph::consumer_list(g.ins(), TensorId(out.0)));
                    lemma_consumer_list_bound(g.ins(), TensorId(out.0), k);
                }
            }
            for c in 0..consumers.len()
                invariant
                    sg == *subgraph,
                    g == sg.graph(),
                    e == is_retained_edge@,
                    consumers@ == (if outputs@.contains(out) {
                        Seq::<OperationId>::empty()
                    } else {
                        g.cons()[out.0 as int]
                    }),
                    out.0 < g.num_tensors(),
                    g.outs()[op.0 as int].contains(out),
                    walked_fwd(sg, e, start, outputs@, op),
                    forall|k: int| 0 <= k < consumers.len() ==> (#[trigger] consumers@[k]).0 < n,
                    forall|k: int| 0 <= k < stack2.len() ==> (#[trigger] stack2@[k]).0 < n,
                    forall|k: int|
                        0 <= k < stack2.len() ==> walked_back(sg, e, start, #[trigger] stack2@[k]) || walked_fwd(
                            sg,
                            e,
                            start,
                            outputs@,
                            stack2@[k],
                        ) || fwd_start(sg, e, start, stack2@[k]),
                    stack2.len() == s0.len() + c,
                    forall|k: int| 0 <= k < s0.len() ==> stack2@[k] == s0[k],
                    forall|k: int| 0 <= k < c ==> stack2@[s0.len() + k] == consumers@[k],
            {
                let y = consumers[c];
                stack2.push(y);
                proof {
                    assert(g.cons()[out.0 as int].contains(y));
                    assert(fwd_step(g, outputs@, op, y));
                    if !walked_back(sg, e, start, y) {
                        lemma_fwd_extend(sg, e, start, outputs@, op, y);
                    }
                }
            }
            proof {
                assert forall|y: OperationId| s0.contains(y) implies stack2@.contains(y) by {
                    let k = choose|k: int| 0 <= k < s0.len() && s0[k] == y;
                    assert(stack2@[k] == y);
                }
                assert forall|m: int, y: OperationId|
                    0 <= m < q + 1 && !outputs@.contains(#[trigger] op_outputs@[m]) && op_outputs@[m].0 < g.num_tensors()
                        && #[trigger] g.cons()[op_outputs@[m].0 as int].contains(y) implies marked(visited@, y)
                        || stack2@.contains(y) by {
                    if m == q {
                        let k = choose|k: int| 0 <= k < consumers.len() && consumers@[k] == y;
                        assert(stack2@[s0.len() + k] == y);
                    }
                }
            }
        }
        proof {
            assert forall|x: OperationId, y: OperationId|
                #[trigger] marked(visited@, x) && !walked_back(sg, e, start, x) && #[trigger] fwd_step(g, outputs@, x, y)
                    implies marked(visited@, y) || stack2@.contains(y) by {
                if x == op {
                    let t = choose|t: TensorId|
                        #[trigger] g.outs()[x.0 as int].contains(t) && !outputs@.contains(t) && t.0 < g.num_tensors()
                            && g.cons()[t.0 as int].contains(y);
                    let m = choose|m: int| 0 <= m < op_outputs.len() && op_outputs@[m] == t;
                    assert(g.cons()[op_outputs@[m].0 as int].contains(y));
                }
            }
            assert forall|x: OperationId| walked_back(sg, e, start, x) implies #[trigger] marked(visited@, x) by {
                assert(marked(vis0, x));
            }
            assert forall|x: OperationId|
                #[trigger] marked(visited@, x) implies walked_back(sg, e, start, x) || walked_fwd(sg, e, start, outputs@, x) by {
                if x != op {
                    assert(marked(vis0, x));
                }
            }
        }
    }
    let ghost reach = |x: OperationId| walk_reaches(sg, e, outputs@, x);
    proof {
        assert(start == walk_start(sg, outputs@));
        assert forall|x: OperationId| #[trigger] marked(visited@, x) <==> walk_reaches(sg, e, outputs@, x) by {
            if walked_fwd(sg, e, start, outputs@, x) {
                let p = choose|p: Seq<OperationId>| #[trigger] fwd_path(sg, e, start, outputs@, p) && p.last() == x;
                assert forall|c: OperationId| #[trigger] fwd_start(sg, e, start, c) implies marked(visited@, c) by {}
                assert forall|a: OperationId, b: OperationId|
                    #[trigger] marked(visited@, a) && !walked_back(sg, e, start, a) && #[trigger] fwd_step(g, outputs@, a, b)
                        implies marked(visited@, b) by {}
                lemma_fwd_marked(sg, e, start, outputs@, visited@, p);
            }
        }
    }
    for k in 0..outputs.len()
        invariant
            subgraph.wf(),
            sg == *subgraph,
            g == sg.graph(),
            *graph == g,
            e == is_retained_edge@,
            n == g.num_ops(),
            visited.len() == n,
            forall|k: int| 0 <= k < outputs.len() ==> produced_inside(sg, #[trigger] outputs@[k]),
            forall|j: int| 0 <= j < k ==> visited@[g.producer_spec(#[trigger] outputs@[j]).unwrap().0 as int],
            forall|x: OperationId| #[trigger] marked(visited@, x) <==> walk_reaches(sg, e, outputs@, x),
    {
        let p = graph.producer_id_of(outputs[k]).unwrap();
        assert(produced_inside(sg, outputs@[k as int]));
        if !visited[p.0] {
            proof {
                assert(!marked(visited@, p));
            }
            return None;
        }
    }
    let ops = marked_ops(&visited);
    let s = Subgraph::from_nodes(graph, ops);
    proof {
        assert forall|k: int| 0 <= k < outputs.len() implies s.has(g.producer_spec(#[trigger] outputs@[k]).unwrap()) by {
            assert(produced_inside(sg, outputs@[k]));
            assert(visited@[g.producer_spec(outputs@[k]).unwrap().0 as int]);
            assert(ops@.contains(g.producer_spec(outputs@[k]).unwrap()));
        }
        assert forall|x: OperationId| s.has(x) <==> walk_reaches(sg, e, outputs@, x) by {
            assert(s.has(x) <==> ops@.contains(x));
            assert(ops@.contains(x) <==> marked(visited@, x));
        }
        assert forall|k: int| 0 <= k < outputs.len() implies walk_reaches(
            sg,
            e,
            outputs@,
            g.producer_spec(#[trigger] outputs@[k]).unwrap(),
        ) by {
            assert(produced_inside(sg, outputs@[k]));
            assert(marked(visited@, g.producer_spec(outputs@[k]).unwrap()));
        }
    }
    Some((s, used))
}

/// Every operation has an output, and every matrix multiplication has two
/// operands.
pub open spec fn graph_shaped(g: ComputationGraph) -> bool {
    forall|o: int|
        0 <= o < g.num_ops() ==> #[trigger] g.outs()[o].len() >= 1 && (g.ops()[o].kind == OperationType::MatMul
            ==> g.ins()[o].len() >= 2)
}

/// Every operation has a non-negative base cost.
pub open spec fn graph_costs_nonneg(g: ComputationGraph) -> bool {
    forall|o: int| 0 <= o < g.num_ops() ==> #[trigger] g.ops()[o].base_cost >= 0
}

/// What `subgraph_latency` needs of a tile `c`, beyond the graph's shape.
pub open spec fn latency_pre(sg: Subgraph, dev: DeviceParameters, c: (i64, i64, i64)) -> bool {
    &&& 1 <= c.0 <= MAX_DIM
    &&& 1 <= c.1 <= MAX_DIM
    &&& 1 <= c.2 <= MAX_DIM
    &&& grid_fits(sg, c)
    &&& forall|i: int|
        0 <= i < sg.output_seq().len() && grid_rows(sg, c) > 0 && grid_cols(sg, c) > 0 ==> #[trigger] red_len(sg, i)
            >= 1
    &&& latency_fits(sg, dev, c)
}

/// The tile search and the latency model of the subgraph `sg`, with
/// `retained` kept in fast memory, stay within the machine's integers.
pub open spec fn stage_fits(sg: Subgraph, dev: DeviceParameters, retained: Seq<TensorId>) -> bool {
    &&& forall|c: (i64, i64, i64)| #[trigger] is_candidate(sg, dev, c) ==> peak_spec(sg, c.0, c.1, c.2) <= i64::MAX
    &&& forall|c: (i64, i64, i64)|
        #[trigger] is_feasible(sg, dev, retained, c) ==> traffic_fits(sg, c.0, c.1, c.2, retained)
    &&& forall|c: (i64, i64, i64)| #[trigger] is_best(sg, dev, retained, c) ==> latency_pre(sg, dev, c)
    &&& forall|c: (i64, i64, i64), l: Seq<(TensorId, Vec<crate::performance_model::PerformanceMetric>)>|
        #[trigger] latency_result(l, sg, dev, c, retained) && is_best(sg, dev, retained, c) ==> sum_fits(l)
}

/// The graph is well formed, acyclic and shaped, its dimensions and costs are
/// in range, and every stage of every subgraph of it fits the machine.
pub open spec fn model_fits(g: ComputationGraph, dev: DeviceParameters) -> bool {
    &&& g.wf()
    &&& g.is_acyclic()
    &&& dims_bounded(g)
    &&& graph_shaped(g)
    &&& graph_costs_nonneg(g)
    &&& dev.slow_memory_bandwidth >= 1
    &&& forall|sg: Subgraph, retained: Seq<TensorId>|
        sg.graph() == g && sg.wf() && (forall|k: int| 0 <= k < retained.len() ==> (#[trigger] retained[k]).0
            < g.num_tensors()) ==> #[trigger] stage_fits(sg, dev, retained)
}

/// A subgraph of a graph that fits the model has the shape and costs the
/// search and the latency model need.
pub proof fn lemma_model_subgraph(sg: Subgraph, dev: DeviceParameters)
    requires
        model_fits(sg.graph(), dev),
        sg.wf(),
    ensures
        shaped(sg),
        costs_nonneg(sg),
{
    let g = sg.graph();
    assert forall|op: OperationId| #[trigger] sg.has(op) implies g.outs()[op.0 as int].len() >= 1 && (
    crate::tiling::kind_of(g, op) == OperationType::MatMul ==> g.ins()[op.0 as int].len() >= 2) by {
        let k = choose|k: int| 0 <= k < sg.node_seq().len() && sg.node_seq()[k] == op;
        assert(op.0 < g.num_ops());
        assert(g.outs()[op.0 as int].len() >= 1);
    }
    assert forall|op: OperationId| #[trigger] sg.has(op) implies g.ops()[op.0 as int].base_cost >= 0 by {
        let k = choose|k: int| 0 <= k < sg.node_seq().len() && sg.node_seq()[k] == op;
        assert(op.0 < g.num_ops());
        assert(g.ops()[op.0 as int].base_cost >= 0);
    }
}

/// Tiles the subgraph with `retained` kept in fast memory: the best tile and
/// the latency at it, or `None` when the subgraph has no output or no tile is
/// feasible.
pub fn plan_stage(subgraph: &Subgraph, device_params: &DeviceParameters, retained: &Vec<TensorId>) -> (r: Option<
    ((i64, i64, i64), Rational),
>)
    requires
        model_fits(subgraph.graph(), *device_params),
        subgraph.wf(),
        forall|k: int| 0 <= k < retained.len() ==> (#[trigger] retained@[k]).0 < subgraph.graph().num_tensors(),
    ensures
        r matches Some((tile, cost)) ==> is_best(*subgraph, *device_params, retained@, tile) && cost.pair()
            == stage_cost(*subgraph, *device_params, tile, retained@) && cost.denom > 0,
        r is None <==> subgraph.output_seq().len() == 0 || forall|c: (i64, i64, i64)|
            !is_feasible(*subgraph, *device_params, retained@, c),
{
    let ghost sg = *subgraph;
    let ghost dev = *device_params;
    proof {
        lemma_model_subgraph(sg, dev);
        assert(stage_fits(sg, dev, retained@));
    }
    let searched = search_tile_values(subgraph, device_params, retained.as_slice());
    match searched {
        Ok(tile) => {
            assert(latency_pre(sg, dev, tile));
            let lat = subgraph_latency(device_params, subgraph, tile, retained.as_slice());
            proof {
                lemma_latency_sum_is_stage_cost(lat@, sg, dev, tile, retained@);
                assert(latency_result(lat@, sg, dev, tile, retained@));
            }
            let cost = total_latency(&lat);
            assert(is_best(sg, dev, retained@, tile));
            assert(cost.pair() == stage_cost(sg, dev, tile, retained@));
            assert(is_feasible(sg, dev, retained@, tile));
            Some((tile, cost))
        },
        Err(SearchError::Inconsistent) => {
            assert(searched == Err::<(i64, i64, i64), SearchError>(SearchError::Inconsistent));
            None
        },
        Err(SearchError::NotFound) => {
            assert(searched == Err::<(i64, i64, i64), SearchError>(SearchError::NotFound));
            assert(forall|c: (i64, i64, i64)| !is_feasible(sg, dev, retained@, c));
            None
        },
    }
}

/// Tensors kept in fast memory while partition `p` runs: those the previous
/// partition retained for it and those it retains for the next one.
pub open spec fn stage_retained<'a>(parts: Seq<Partition<'a>>, p: int) -> Seq<TensorId> {
    (if p > 0 {
        parts[p - 1].retained_outputs@
    } else {
        Seq::empty()
    }) + parts[p].retained_outputs@
}

/// Every partition is a subgraph of `g` run at the best tile for it with the
/// tensors it keeps in fast memory.
pub open spec fn plan_valid<'a>(g: ComputationGraph, dev: DeviceParameters, parts: Seq<Partition<'a>>) -> bool {
    forall|p: int|
        0 <= p < parts.len() ==> (#[trigger] parts[p]).subgraph.wf() && parts[p].subgraph.graph() == g && is_best(
            parts[p].subgraph,
            dev,
            stage_retained(parts, p),
            parts[p].tile_size,
        )
}

/// Sum of the latencies of the partitions, in order.
pub open spec fn plan_cost<'a>(dev: DeviceParameters, parts: Seq<Partition<'a>>) -> (nat, nat)
    decreases parts.len(),
{
    if parts.len() == 0 {
        crate::performance_model::zero_pair()
    } else {
        frac_add(
            plan_cost(dev, parts.drop_last()),
            stage_cost(
                parts.last().subgraph,
                dev,
                parts.last().tile_size,
                stage_retained(parts, parts.len() - 1),
            ),
        )
    }
}

/// A copy of a list of tensor ids.
pub(crate) fn copy_ids(v: &Vec<TensorId>) -> (r: Vec<TensorId>)
    ensures
        r@ == v@,
{
    let mut r: Vec<TensorId> = Vec::new();
    for i in 0..v.len()
        invariant
            r@ == v@.take(i as int),
    {
        r.push(v[i]);
        assert(v@.take(i + 1) =~= v@.take(i as int).push(v@[i as int]));
    }
    assert(v@.take(v.len() as int) =~= v@);
    r
}

/// `a` followed by `b`.
pub(crate) fn concat_ids(a: &Vec<TensorId>, b: &Vec<TensorId>) -> (r: Vec<TensorId>)
    ensures
        r@ == a@ + b@,
{
    let mut r = copy_ids(a);
    for i in 0..b.len()
        invariant
            r@ == a@ + b@.take(i as int),
    {
        r.push(b[i]);
        assert(a@ + b@.take(i + 1) =~= (a@ + b@.take(i as int)).push(b@[i as int]));
    }
    assert(b@.take(b.len() as int) =~= b@);
    r
}

/// Splits the subgraph at its retained edges into a chain of partitions:
/// the part covering the subgraph's outputs, then, for the retained tensors
/// it stops at, the part covering those, and so on. The partitions come
/// upstream first, each run at the best tile for the tensors it keeps, with
/// the sum of their latencies. `None` when a part does not cover its
/// tensors, a part has no feasible tile, or the sum overflows.
#[verifier::spinoff_prover]
#[verifier::rlimit(80)]
pub fn try_partition_subgraph<'a>(
    subgraph: &Subgraph<'a>,
    device_params: &DeviceParameters,
    is_retained_edge: &Vec<(TensorId, OperationId, bool)>,
) -> (r: Option<(Vec<Partition<'a>>, Rational)>)
    requires
        model_fits(subgraph.graph(), *device_params),
        subgraph.wf(),
    ensures
        r matches Some((parts, cost)) ==> {
            &&& plan_valid(subgraph.graph(), *device_params, parts@)
            &&& cost.pair() == plan_cost(*device_params, parts@)
            &&& cost.denom > 0
            &&& plan_covers(*subgraph, parts@)
            &&& plan_walks(*subgraph, is_retained_edge@, parts@)
        },
        r is None ==> subgraph.output_seq().len() > 0 && walk_fails(*subgraph, *device_params, is_retained_edge@),
{
    let ghost e = is_retained_edge@;
    let ghost sg = *subgraph;
    let ghost g = sg.graph();
    let ghost dev = *device_params;
    proof {
        lemma_model_subgraph(sg, dev);
    }
    let mut outputs_to_cover = subgraph.output_tensor_ids();
    proof {
        assert forall|k: int| 0 <= k < outputs_to_cover.len() implies produced_inside(
            sg,
            #[trigger] outputs_to_cover@[k],
        ) by {
            assert(outputs_to_cover@.contains(outputs_to_cover@[k]));
            crate::tiling::lemma_reduction_bounded(sg, outputs_to_cover@[k]);
        }
    }
    let mut chain: Vec<(Subgraph<'a>, Vec<TensorId>)> = Vec::new();
    while outputs_to_cover.len() > 0
        invariant
            model_fits(g, dev),
            dev == *device_params,
            subgraph.wf(),
            sg == *subgraph,
            g == sg.graph(),
            forall|k: int| 0 <= k < outputs_to_cover.len() ==> produced_inside(sg, #[trigger] outputs_to_cover@[k]),
            forall|c: int| 0 <= c < chain.len() ==> (#[trigger] chain@[c]).0.wf() && chain@[c].0.graph() == g,
            forall|c: int, k: int|
                0 <= c < chain.len() && 0 <= k < chain@[c].1.len() ==> (#[trigger] chain@[c].1@[k]).0
                    < g.num_tensors(),
            forall|c: int, k: int|
                0 <= c < chain.len() && 0 <= k < chain@[c].1.len() ==> produced_inside(sg, #[trigger] chain@[c].1@[k]),
            outputs_to_cover@ == (if chain.len() == 0 {
                sg.output_seq()
            } else {
                chain@[chain.len() - 1].1@
            }),
            forall|c: int| 0 <= c < chain.len() ==> covers((#[trigger] chain@[c]).0, chain_cover(sg, chain@, c)),
            chain.len() > 0 ==> sg.output_seq().len() > 0,
            e == is_retained_edge@,
            forall|c: int| 0 <= c < chain.len() ==> (#[trigger] chain@[c]).1@.no_duplicates(),
            forall|c: int| 0 <= c < chain.len() ==> (#[trigger] chain_cover(sg, chain@, c)).len() > 0,
            forall|c: int, x: OperationId|
                #![trigger chain@[c].0.has(x)]
                0 <= c < chain.len() ==> (chain@[c].0.has(x) <==> walk_reaches(sg, e, chain_cover(sg, chain@, c), x)),
            forall|c: int, t: TensorId|
                #![trigger chain@[c].1@.contains(t)]
                0 <= c < chain.len() ==> (chain@[c].1@.contains(t) <==> walk_keeps(
                    sg,
                    e,
                    walk_start(sg, chain_cover(sg, chain@, c)),
                    t,
                )),
        decreases (if outputs_to_cover.len() > 0 {
            g.pos(g.producer_spec(outputs_to_cover@[0]).unwrap()) + 1
        } else {
            0
        }),
    {
        let ghost old_start = g.pos(g.producer_spec(outputs_to_cover@[0]).unwrap());
        let (covering, used) = match try_extract_output_covering_subgraph(
            subgraph,
            is_retained_edge,
            &outputs_to_cover,
        ) {
            Some(found) => found,
            None => {
                proof {
                    lemma_walk_chain(sg, e, chain@);
                    let covs = chain_covs(sg, chain@);
                    let subs = chain_subs(chain@);
                    assert(covs.last() == outputs_to_cover@);
                    let k = choose|k: int|
                        0 <= k < outputs_to_cover.len() && !walk_reaches(
                            sg,
                            e,
                            outputs_to_cover@,
                            g.producer_spec(#[trigger] outputs_to_cover@[k]).unwrap(),
                        );
                    assert(covs.last()[k] == outputs_to_cover@[k]);
                    assert(walk_chain(sg, e, covs, subs));
                }
                return None;
            },
        };
        outputs_to_cover = copy_ids(&used);
        proof {
            assert forall|k: int| 0 <= k < used.len() implies (#[trigger] used@[k]).0 < g.num_tensors() by {
                assert(produced_inside(sg, used@[k]));
            }
            if outputs_to_cover.len() > 0 {
                assert(g.pos(g.producer_spec(outputs_to_cover@[0]).unwrap()) < old_start);
                assert(g.pos(g.producer_spec(outputs_to_cover@[0]).unwrap()) >= 0);
            }
        }
        let ghost c0 = chain@;
        let ghost covered = if c0.len() == 0 { sg.output_seq() } else { c0[c0.len() - 1].1@ };
        proof {
            assert(covers(covering, covered)) by {
                assert forall|k: int| 0 <= k < covered.len() implies covering.has(
                    g.producer_spec(#[trigger] covered[k]).unwrap(),
                ) by {}
            }
        }
        chain.push((covering, used));
        proof {
            assert(covered.len() > 0);
            assert forall|c: int| 0 <= c < chain.len() implies (#[trigger] chain@[c]).1@.no_duplicates() by {
                if c < c0.len() {
                    assert(chain@[c] == c0[c]);
                }
            }
            assert forall|c: int, k: int|
                0 <= c < chain.len() && 0 <= k < chain@[c].1.len() implies (#[trigger] chain@[c].1@[k]).0
                < g.num_tensors() by {
                if c < c0.len() {
                    assert(chain@[c] == c0[c]);
                }
            }
            assert forall|c: int, k: int|
                0 <= c < chain.len() && 0 <= k < chain@[c].1.len() implies produced_inside(sg, #[trigger] chain@[c].1@[k]) by {
                if c < c0.len() {
                    assert(chain@[c] == c0[c]);
                }
            }
            assert forall|c: int| 0 <= c < chain.len() implies chain_cover(sg, chain@, c) == chain_cover(sg, c0, c) || c
                == c0.len() by {
                if c < c0.len() {
                    if c > 0 {
                        assert(chain@[c - 1] == c0[c - 1]);
                    }
                }
            }
            assert(chain_cover(sg, chain@, c0.len() as int) == covered) by {
                if c0.len() > 0 {
                    assert(chain@[c0.len() - 1] == c0[c0.len() - 1]);
                }
            }
            assert forall|c: int| 0 <= c < chain.len() implies (#[trigger] chain_cover(sg, chain@, c)).len() > 0 by {
                if c < c0.len() {
                    assert(chain_cover(sg, chain@, c) == chain_cover(sg, c0, c));
                }
            }
            assert forall|c: int, x: OperationId|
                #![trigger chain@[c].0.has(x)]
                0 <= c < chain.len() implies (chain@[c].0.has(x) <==> walk_reaches(sg, e, chain_cover(sg, chain@, c), x)) by {
                if c < c0.len() {
                    assert(chain@[c] == c0[c]);
                }
            }
            assert forall|c: int, t: TensorId|
                #![trigger chain@[c].1@.contains(t)]
                0 <= c < chain.len() implies (chain@[c].1@.contains(t) <==> walk_keeps(
                    sg,
                    e,
                    walk_start(sg, chain_cover(sg, chain@, c)),
                    t,
                )) by {
                if c < c0.len() {
                    assert(chain@[c] == c0[c]);
                }
            }
            assert forall|c: int| 0 <= c < chain.len() implies covers((#[trigger] chain@[c]).0, chain_cover(sg, chain@, c)) by {
                if c < c0.len() {
                    assert(chain@[c] == c0[c]);
                    if c > 0 {
                        assert(chain@[c - 1] == c0[c - 1]);
                    }
                    assert(chain_cover(sg, chain@, c) == chain_cover(sg, c0, c));
                } else {
                    if c > 0 {
                        assert(chain@[c - 1] == c0[c - 1]);
                    }
                    assert(chain_cover(sg, chain@, c) == covered);
                }
            }
        }
    }
    let mut partitions: Vec<Partition<'a>> = Vec::new();
    let mut total = fraction_from_int(0);
    let mut prev: Vec<TensorId> = Vec::new();
    let ghost full = chain@;
    let ghost len = chain.len() as int;
    proof {
        assert(len == 0 <==> sg.output_seq().len() == 0);
        assert(len > 0 ==> full[len - 1].1@.len() == 0);
        lemma_walk_chain(sg, e, full);
        assert(forall|c: int, x: OperationId|
            #![trigger full[c].0.has(x)]
            0 <= c < len ==> (full[c].0.has(x) <==> walk_reaches(sg, e, chain_cover(sg, full, c), x)));
        assert(forall|c: int, t: TensorId|
            #![trigger full[c].1@.contains(t)]
            0 <= c < len ==> (full[c].1@.contains(t) <==> walk_keeps(sg, e, walk_start(sg, chain_cover(sg, full, c)), t)));
    }
    while chain.len() > 0
        invariant
            full.len() == len,
            chain@ == full.take(chain.len() as int),
            partitions.len() + chain.len() == len,
            forall|c: int| 0 <= c < len ==> covers((#[trigger] full[c]).0, chain_cover(sg, full, c)),
            len == 0 <==> sg.output_seq().len() == 0,
            len > 0 ==> full[len - 1].1@.len() == 0,
            walk_chain(sg, e, chain_covs(sg, full), chain_subs(full)),
            e == is_retained_edge@,
            forall|c: int, k: int|
                0 <= c < len && 0 <= k < full[c].1.len() ==> produced_inside(sg, #[trigger] full[c].1@[k]),
            forall|i: int|
                0 <= i < partitions.len() ==> (#[trigger] partitions@[i]).subgraph == full[len - 1 - i].0
                    && partitions@[i].retained_outputs@ == (if len - 1 - i > 0 {
                    full[len - 2 - i].1@
                } else {
                    Seq::<TensorId>::empty()
                }),
            model_fits(g, dev),
            dev == *device_params,
            sg == *subgraph,
            g == sg.graph(),
            forall|c: int| 0 <= c < chain.len() ==> (#[trigger] chain@[c]).0.wf() && chain@[c].0.graph() == g,
            forall|c: int, k: int|
                0 <= c < chain.len() && 0 <= k < chain@[c].1.len() ==> (#[trigger] chain@[c].1@[k]).0
                    < g.num_tensors(),
            plan_valid(g, dev, partitions@),
            total.pair() == plan_cost(dev, partitions@),
            total.denom > 0,
            prev@ == (if partitions.len() > 0 {
                partitions@[partitions.len() - 1].retained_outputs@
            } else {
                Seq::empty()
            }),
            forall|k: int| 0 <= k < prev.len() ==> (#[trigger] prev@[k]).0 < g.num_tensors(),
        decreases chain.len(),
    {
        let ghost ch0 = chain@;
        let popped = chain.pop().unwrap();
        assert(popped == ch0[ch0.len() - 1]);
        let s = popped.0;
        assert(s.wf() && s.graph() == g);
        let retained_outputs = if chain.len() > 0 {
            copy_ids(&chain[chain.len() - 1].1)
        } else {
            Vec::new()
        };
        proof {
            assert forall|c: int| 0 <= c < chain.len() implies chain@[c] == ch0[c] by {}
            assert forall|k: int| 0 <= k < retained_outputs.len() implies (#[trigger] retained_outputs@[k]).0
                < g.num_tensors() by {
                assert(chain.len() > 0);
                assert(chain@[chain.len() - 1].1@[k] == retained_outputs@[k]);
            }
        }
        let retained_ids = concat_ids(&prev, &retained_outputs);
        proof {
            assert forall|k: int| 0 <= k < retained_ids.len() implies (#[trigger] retained_ids@[k]).0
                < g.num_tensors() by {
                if k < prev.len() {
                    assert(retained_ids@[k] == prev@[k]);
                } else {
                    assert(retained_ids@[k] == retained_outputs@[k - prev.len()]);
                }
            }
        }
        proof {
            let covs = chain_covs(sg, full);
            let subs = chain_subs(full);
            let c = len - 1 - partitions.len();
            assert(c == chain.len());
            assert(subs[c] == s);
            assert(covs[c + 1] == full[c].1@);
            assert(prev@ == covs[c + 1]) by {
                if partitions.len() > 0 {
                    assert(partitions@[partitions.len() - 1].retained_outputs@ == full[c].1@);
                } else {
                    assert(full[len - 1].1@ =~= Seq::<TensorId>::empty());
                }
            }
            assert(retained_outputs@ == walk_own(covs, c)) by {
                if c > 0 {
                    assert(chain@[chain.len() - 1] == full[c - 1]);
                    assert(covs[c] == full[c - 1].1@);
                }
            }
            assert(retained_ids@ == walk_retained(covs, c));
            assert forall|j: int| 0 <= j < partitions.len() implies (#[trigger] partitions@[j]).subgraph == subs[len - 1 - j]
                && partitions@[j].retained_outputs@ == walk_own(covs, len - 1 - j) by {
                if len - 1 - j > 0 {
                    assert(covs[len - 1 - j] == full[len - 2 - j].1@);
                }
            }
            assert(covs.last() == covs[len]);
            assert(covs[len] == full[len - 1].1@);
        }
        let (tile, cost) = match plan_stage(&s, device_params, &retained_ids) {
            Some(planned) => planned,
            None => {
                proof {
                    let covs = chain_covs(sg, full);
                    let subs = chain_subs(full);
                    assert(parts_fail(sg, dev, covs, subs, partitions@));
                    assert(covs.last() =~= Seq::<TensorId>::empty());
                    assert(walk_chain(sg, e, covs, subs));
                }
                return None;
            },
        };
        total = match rational_add_checked(total, cost) {
            Some(t) => t,
            None => {
                proof {
                    let covs = chain_covs(sg, full);
                    let subs = chain_subs(full);
                    assert(sum_overflows(plan_cost(dev, partitions@), stage_cost(s, dev, tile, retained_ids@)));
                    assert(is_best(s, dev, retained_ids@, tile));
                    assert(parts_fail(sg, dev, covs, subs, partitions@));
                    assert(covs.last() =~= Seq::<TensorId>::empty());
                    assert(walk_chain(sg, e, covs, subs));
                }
                return None;
            },
        };
        prev = copy_ids(&retained_outputs);
        let ghost p0 = partitions@;
        partitions.push(Partition { subgraph: s, retained_outputs, tile_size: tile });
        proof {
            let p1 = partitions@;
            assert(chain@ =~= full.take(chain.len() as int));
            assert forall|i: int| 0 <= i < p1.len() implies (#[trigger] p1[i]).subgraph == full[len - 1 - i].0
                && p1[i].retained_outputs@ == (if len - 1 - i > 0 {
                full[len - 2 - i].1@
            } else {
                Seq::<TensorId>::empty()
            }) by {
                if i < p0.len() {
                    assert(p1[i] == p0[i]);
                } else {
                    assert(ch0 == full.take(ch0.len() as int));
                    assert(ch0[ch0.len() - 1] == full[len - 1 - i]);
                    if len - 1 - i > 0 {
                        assert(chain@[chain.len() - 1] == full[len - 2 - i]);
                    }
                }
            }
            assert(p1.drop_last() =~= p0);
            assert(stage_retained(p1, p1.len() - 1) =~= retained_ids@);
            assert forall|p: int| 0 <= p < p1.len() implies (#[trigger] p1[p]).subgraph.wf() && p1[p].subgraph.graph()
                == g && is_best(p1[p].subgraph, dev, stage_retained(p1, p), p1[p].tile_size) by {
                if p < p0.len() {
                    assert(p1[p] == p0[p]);
                    assert(stage_retained(p1, p) =~= stage_retained(p0, p));
                }
            }
        }
    }
    proof {
        let ps = partitions@;
        assert forall|p: int|
            0 <= p < ps.len() implies covers((#[trigger] ps[p]).subgraph, ps[p].retained_outputs@) && forall|k: int|
            0 <= k < ps[p].retained_outputs.len() ==> produced_inside(sg, #[trigger] ps[p].retained_outputs@[k]) by {
            assert(covers(full[len - 1 - p].0, chain_cover(sg, full, len - 1 - p)));
            if len - 1 - p > 0 {
                assert(chain_cover(sg, full, len - 1 - p) == full[len - 2 - p].1@);
            } else {
                assert(ps[p].retained_outputs@ == Seq::<TensorId>::empty());
            }
        }
        assert forall|p: int| 0 <= p < ps.len() implies part_cover(sg, ps, p) == chain_cover(sg, full, len - 1 - p) by {
            if len - 1 - p > 0 {
                assert(ps[p].retained_outputs@ == full[len - 2 - p].1@);
            }
        }
        assert forall|p: int, x: OperationId|
            #![trigger ps[p].subgraph.has(x)]
            0 <= p < ps.len() implies (ps[p].subgraph.has(x) <==> walk_reaches(sg, e, part_cover(sg, ps, p), x)) by {
            assert(ps[p].subgraph == full[len - 1 - p].0);
            assert(full[len - 1 - p].0.has(x) <==> walk_reaches(sg, e, chain_cover(sg, full, len - 1 - p), x));
        }
        assert forall|p: int, t: TensorId|
            0 <= p < ps.len() implies (#[trigger] walk_keeps(sg, e, walk_start(sg, part_cover(sg, ps, p)), t) <==> p > 0
                && ps[p - 1].retained_outputs@.contains(t)) by {
            assert(full[len - 1 - p].1@.contains(t) <==> walk_keeps(sg, e, walk_start(sg, chain_cover(sg, full, len - 1 - p)), t));
            if p > 0 {
                assert(ps[p - 1].retained_outputs@ == full[len - 1 - p].1@);
            } else {
                assert(full[len - 1].1@.len() == 0);
            }
        }
        if ps.len() > 0 {
            assert(covers(full[0].0, chain_cover(sg, full, 0)));
            assert(ps[ps.len() - 1].subgraph == full[0].0);
            assert(ps[ps.len() - 1].retained_outputs@ == Seq::<TensorId>::empty());
        }
        assert(ps.len() == len);
    }
    Some((partitions, total))
}

/// The tensors part `p` of a plan has to produce: the subgraph's outputs for
/// the last part, else those it keeps for the next part.
pub open spec fn part_cover<'a>(sg: Subgraph, parts: Seq<Partition<'a>>, p: int) -> Seq<TensorId> {
    if p == parts.len() - 1 {
        sg.output_seq()
    } else {
        parts[p].retained_outputs@
    }
}

/// Each part of the plan holds exactly the operations the walks for its
/// tensors reach (see `walk_reaches`), and the backward walk stops exactly at
/// the tensors the part before it keeps, at none for the first part.
pub open spec fn plan_walks<'a>(sg: Subgraph, edges: Seq<(TensorId, OperationId, bool)>, parts: Seq<Partition<'a>>) -> bool {
    &&& forall|p: int, x: OperationId|
        #![trigger parts[p].subgraph.has(x)]
        0 <= p < parts.len() ==> (parts[p].subgraph.has(x) <==> walk_reaches(sg, edges, part_cover(sg, parts, p), x))
    &&& forall|p: int, t: TensorId|
        0 <= p < parts.len() ==> (#[trigger] walk_keeps(sg, edges, walk_start(sg, part_cover(sg, parts, p)), t) <==> p > 0
            && parts[p - 1].retained_outputs@.contains(t))
}

/// The plan's last partition produces the subgraph's outputs and keeps
/// nothing, and every partition produces the tensors it keeps for the next
/// one, which the subgraph produces; the plan is empty exactly when the
/// subgraph has no output.
pub open spec fn plan_covers<'a>(sg: Subgraph, parts: Seq<Partition<'a>>) -> bool {
    &&& (parts.len() == 0 <==> sg.output_seq().len() == 0)
    &&& parts.len() > 0 ==> parts[parts.len() - 1].retained_outputs.len() == 0 && covers(
        parts[parts.len() - 1].subgraph,
        sg.output_seq(),
    )
    &&& forall|p: int|
        0 <= p < parts.len() ==> covers((#[trigger] parts[p]).subgraph, parts[p].retained_outputs@) && forall|k: int|
            0 <= k < parts[p].retained_outputs.len() ==> produced_inside(sg, #[trigger] parts[p].retained_outputs@[k])
}

/// `s` holds the producer of every tensor of `ts`.
pub open spec fn covers(s: Subgraph, ts: Seq<TensorId>) -> bool {
    forall|k: int| 0 <= k < ts.len() ==> s.has(s.graph().producer_spec(#[trigger] ts[k]).unwrap())
}

/// What step `c` of the backward walk had to produce: the subgraph's outputs
/// first, then the retained tensors the previous step stopped at.
pub open spec fn chain_cover<'a>(sg: Subgraph, chain: Seq<(Subgraph<'a>, Vec<TensorId>)>, c: int) -> Seq<TensorId> {
    if c == 0 {
        sg.output_seq()
    } else {
        chain[c - 1].1@
    }
}

/// Adding the fractions `a` and `b` overflows the `u64` products it forms.
pub open spec fn sum_overflows(a: (nat, nat), b: (nat, nat)) -> bool {
    !(a.0 * b.1 + b.0 * a.1 <= u64::MAX && a.1 * b.1 <= u64::MAX)
}

/// Part `i` of a walk chain: it has something to produce, `s` holds the
/// operations the walks for it reach, and the next list holds, once each,
/// the tensors its backward walk stops at.
pub open spec fn chain_link(
    sg: Subgraph,
    edges: Seq<(TensorId, OperationId, bool)>,
    covs: Seq<Seq<TensorId>>,
    s: Subgraph,
    i: int,
) -> bool {
    &&& covs[i].len() > 0
    &&& s.wf()
    &&& s.graph() == sg.graph()
    &&& forall|x: OperationId| #[trigger] s.has(x) <==> walk_reaches(sg, edges, covs[i], x)
    &&& covs[i + 1].no_duplicates()
    &&& forall|t: TensorId| covs[i + 1].contains(t) <==> #[trigger] walk_keeps(sg, edges, walk_start(sg, covs[i]), t)
}

/// `covs` and `subs` follow the walks from the subgraph's outputs: `covs[i]`
/// is what part `i` (the part producing the subgraph's outputs first) has to
/// produce and `subs[i]` the part.
pub open spec fn walk_chain(
    sg: Subgraph,
    edges: Seq<(TensorId, OperationId, bool)>,
    covs: Seq<Seq<TensorId>>,
    subs: Seq<Subgraph>,
) -> bool {
    &&& covs.len() == subs.len() + 1
    &&& covs[0] == sg.output_seq()
    &&& forall|i: int| 0 <= i < subs.len() ==> chain_link(sg, edges, covs, #[trigger] subs[i], i)
}

/// What part `c` of a walk chain keeps for the part after it: the tensors
/// that part has to produce, none for the part producing the outputs.
pub open spec fn walk_own(covs: Seq<Seq<TensorId>>, c: int) -> Seq<TensorId> {
    if c > 0 {
        covs[c]
    } else {
        Seq::empty()
    }
}

/// The tensors kept in fast memory while part `c` of a walk chain runs.
pub open spec fn walk_retained(covs: Seq<Seq<TensorId>>, c: int) -> Seq<TensorId> {
    covs[c + 1] + walk_own(covs, c)
}

/// Running the parts of a completed walk chain upstream first fails at the
/// part after `parts`: that part has no output, or no feasible tile for the
/// tensors kept around it, or adding its latency at a best tile to that of
/// `parts` overflows.
pub open spec fn parts_fail<'a>(
    sg: Subgraph,
    dev: DeviceParameters,
    covs: Seq<Seq<TensorId>>,
    subs: Seq<Subgraph<'a>>,
    parts: Seq<Partition<'a>>,
) -> bool {
    let m = subs.len() as int;
    let c = m - 1 - parts.len();
    let s = subs[c];
    let ret = walk_retained(covs, c);
    &&& parts.len() < m
    &&& plan_valid(sg.graph(), dev, parts)
    &&& forall|j: int|
        0 <= j < parts.len() ==> (#[trigger] parts[j]).subgraph == subs[m - 1 - j] && parts[j].retained_outputs@
            == walk_own(covs, m - 1 - j)
    &&& {
        ||| s.output_seq().len() == 0
        ||| forall|t: (i64, i64, i64)| !is_feasible(s, dev, ret, t)
        ||| exists|t: (i64, i64, i64)|
            #[trigger] is_best(s, dev, ret, t) && sum_overflows(plan_cost(dev, parts), stage_cost(s, dev, t, ret))
    }
}

/// Splitting the subgraph along its walks fails: some walk misses the
/// producer of a tensor it has to produce, or, the walks done, running the
/// parts upstream first fails (see `parts_fail`).
pub open spec fn walk_fails(sg: Subgraph, dev: DeviceParameters, edges: Seq<(TensorId, OperationId, bool)>) -> bool {
    exists|covs: Seq<Seq<TensorId>>, subs: Seq<Subgraph>|
        #[trigger] walk_chain(sg, edges, covs, subs) && ((covs.last().len() > 0 && exists|k: int|
            0 <= k < covs.last().len() && !walk_reaches(
                sg,
                edges,
                covs.last(),
                sg.graph().producer_spec(#[trigger] covs.last()[k]).unwrap(),
            )) || (covs.last().len() == 0 && exists|parts: Seq<Partition>| #[trigger] parts_fail(sg, dev, covs, subs, parts)))
}

/// The lists each step of the backward walks had to produce, the last one
/// what the final step stopped at.
pub open spec fn chain_covs<'a>(sg: Subgraph, chain: Seq<(Subgraph<'a>, Vec<TensorId>)>) -> Seq<Seq<TensorId>> {
    Seq::new((chain.len() + 1) as nat, |c: int| chain_cover(sg, chain, c))
}

/// The parts the steps of the backward walks found.
pub open spec fn chain_subs<'a>(chain: Seq<(Subgraph<'a>, Vec<TensorId>)>) -> Seq<Subgraph<'a>> {
    Seq::new(chain.len() as nat, |c: int| chain[c].0)
}

/// Steps that each hold what their walks reach and stop at what the next
/// step has to produce form a walk chain.
proof fn lemma_walk_chain<'a>(sg: Subgraph, e: Seq<(TensorId, OperationId, bool)>, chain: Seq<(Subgraph<'a>, Vec<TensorId>)>)
    requires
        forall|c: int| 0 <= c < chain.len() ==> (#[trigger] chain[c]).0.wf() && chain[c].0.graph() == sg.graph(),
        forall|c: int| 0 <= c < chain.len() ==> (#[trigger] chain[c]).1@.no_duplicates(),
        forall|c: int| 0 <= c < chain.len() ==> (#[trigger] chain_cover(sg, chain, c)).len() > 0,
        forall|c: int, x: OperationId|
            #![trigger chain[c].0.has(x)]
            0 <= c < chain.len() ==> (chain[c].0.has(x) <==> walk_reaches(sg, e, chain_cover(sg, chain, c), x)),
        forall|c: int, t: TensorId|
            #![trigger chain[c].1@.contains(t)]
            0 <= c < chain.len() ==> (chain[c].1@.contains(t) <==> walk_keeps(sg, e, walk_start(sg, chain_cover(sg, chain, c)), t)),
    ensures
        walk_chain(sg, e, chain_covs(sg, chain), chain_subs(chain)),
{
    let covs = chain_covs(sg, chain);
    let subs = chain_subs(chain);
    assert forall|i: int| 0 <= i < subs.len() implies chain_link(sg, e, covs, #[trigger] subs[i], i) by {
        assert(subs[i] == chain[i].0);
        assert(covs[i] == chain_cover(sg, chain, i));
        assert(covs[i + 1] == chain[i].1@);
        assert(chain_cover(sg, chain, i).len() > 0);
        assert forall|x: OperationId| #[trigger] subs[i].has(x) <==> walk_reaches(sg, e, covs[i], x) by {
            assert(chain[i].0.has(x) <==> walk_reaches(sg, e, chain_cover(sg, chain, i), x));
        }
        assert forall|t: TensorId| covs[i + 1].contains(t) <==> #[trigger] walk_keeps(sg, e, walk_start(sg, covs[i]), t) by {
            assert(chain[i].1@.contains(t) <==> walk_keeps(sg, e, walk_start(sg, chain_cover(sg, chain, i)), t));
        }
    }
    assert(covs[0] == sg.output_seq());
}

/// Whether `cost` beats the best cost so far (none counts as infinite).
fn improves(cost: Rational, best: Option<Rational>) -> (r: bool)
    requires
        cost.denom > 0,
        best matches Some(b) ==> b.denom > 0,
    ensures
        r == match best {
            Some(b) => !frac_le(b.pair(), cost.pair()),
            None => true,
        },
{
    match best {
        Some(b) => rational_lt(cost, b),
        None => true,
    }
}

/// The edges into operation `op` from the tensors of `ins` that the
/// subgraph does not take as inputs, in order.
pub open spec fn op_edges(sg: Subgraph, op: OperationId, ins: Seq<TensorId>) -> Seq<(TensorId, OperationId)>
    decreases ins.len(),
{
    if ins.len() == 0 {
        Seq::empty()
    } else {
        op_edges(sg, op, ins.drop_last()) + if sg.is_input_tensor(ins.last()) {
            Seq::empty()
        } else {
            seq![(ins.last(), op)]
        }
    }
}

/// The edges into the operations of `ops` from tensors the subgraph
/// produces, operation by operation.
pub open spec fn inner_edges(sg: Subgraph, ops: Seq<OperationId>) -> Seq<(TensorId, OperationId)>
    decreases ops.len(),
{
    if ops.len() == 0 {
        Seq::empty()
    } else {
        inner_edges(sg, ops.drop_last()) + op_edges(sg, ops.last(), sg.graph().ins()[ops.last().0 as int])
    }
}

/// The decisions the edge search lists for the edges `es` with choices `d`:
/// for each edge, keeping its tensor, evicting it, and the choice made.
pub open spec fn trials(es: Seq<(TensorId, OperationId)>, d: Seq<bool>) -> Seq<(TensorId, OperationId, bool)>
    decreases es.len(),
{
    if es.len() == 0 {
        Seq::empty()
    } else {
        let e = es.last();
        trials(es.drop_last(), d) + seq![(e.0, e.1, true), (e.0, e.1, false), (e.0, e.1, d[es.len() - 1])]
    }
}

/// The edges into `op` from a prefix of `ins` start the edges from all of them.
proof fn lemma_op_edges_prefix(sg: Subgraph, op: OperationId, ins: Seq<TensorId>, q: int)
    requires
        0 <= q <= ins.len(),
    ensures
        op_edges(sg, op, ins.take(q)) =~= op_edges(sg, op, ins).take(op_edges(sg, op, ins.take(q)).len() as int),
        op_edges(sg, op, ins.take(q)).len() <= op_edges(sg, op, ins).len(),
        q < ins.len() && !sg.is_input_tensor(ins[q]) ==> op_edges(sg, op, ins.take(q)).len() < op_edges(
            sg,
            op,
            ins,
        ).len() && op_edges(sg, op, ins)[op_edges(sg, op, ins.take(q)).len() as int] == (ins[q], op),
    decreases ins.len(),
{
    if q < ins.len() {
        lemma_op_edges_prefix(sg, op, ins.drop_last(), q);
        assert(ins.drop_last().take(q) =~= ins.take(q));
        if q == ins.len() - 1 {
            assert(ins.take(q) =~= ins.drop_last());
        }
    } else {
        assert(ins.take(q) =~= ins);
    }
}

/// The edges into a prefix of `ops` start the edges into all of them.
proof fn lemma_inner_edges_prefix(sg: Subgraph, ops: Seq<OperationId>, i: int)
    requires
        0 <= i <= ops.len(),
    ensures
        inner_edges(sg, ops.take(i)) =~= inner_edges(sg, ops).take(inner_edges(sg, ops.take(i)).len() as int),
        inner_edges(sg, ops.take(i)).len() <= inner_edges(sg, ops).len(),
        i < ops.len() ==> inner_edges(sg, ops.take(i + 1)) =~= inner_edges(sg, ops.take(i)) + op_edges(
            sg,
            ops[i],
            sg.graph().ins()[ops[i].0 as int],
        ),
    decreases ops.len(),
{
    if i < ops.len() {
        lemma_inner_edges_prefix(sg, ops.drop_last(), i);
        assert(ops.drop_last().take(i) =~= ops.take(i));
        let t1 = ops.take(i + 1);
        assert(t1.drop_last() =~= ops.take(i));
        if i + 1 < ops.len() {
            lemma_inner_edges_prefix(sg, ops.drop_last(), i + 1);
            assert(ops.drop_last().take(i + 1) =~= t1);
        } else {
            assert(t1 =~= ops);
        }
    } else {
        assert(ops.take(i) =~= ops);
    }
}

/// Partitioning `sg` with the edge decisions `e` costs `c`: the latency of a
/// valid plan that covers the subgraph and walks `e`, or `None` when the
/// walk fails.
#[verifier::opaque]
pub open spec fn trial_cost(sg: Subgraph, dev: DeviceParameters, e: Seq<(TensorId, OperationId, bool)>, c: Option<
    (nat, nat),
>) -> bool {
    match c {
        Some(x) => x.1 > 0 && exists|parts: Seq<Partition>|
            #[trigger] plan_walks(sg, e, parts) && plan_valid(sg.graph(), dev, parts) && plan_covers(sg, parts) && x
                == plan_cost(dev, parts),
        None => walk_fails(sg, dev, e),
    }
}

/// The edge search stopped after the first `n` edges of `sg` with choices
/// `d`: partitioning evicting the tensor of edge `n` failed, or, with every
/// edge decided, partitioning with the choices made failed.
pub open spec fn search_fails(sg: Subgraph, dev: DeviceParameters, d: Seq<bool>, n: int) -> bool {
    let es = inner_edges(sg, sg.node_seq());
    &&& 0 <= n <= es.len()
    &&& if n < es.len() {
        trial_cost(sg, dev, trials(es.take(n), d).push((es[n].0, es[n].1, true)).push((es[n].0, es[n].1, false)), None)
    } else {
        trial_cost(sg, dev, trials(es, d), None)
    }
}

/// A cost `c` beats the best cost `b` so far (none counts as infinite).
pub open spec fn beats(c: (nat, nat), b: Option<(nat, nat)>) -> bool {
    match b {
        Some(y) => !frac_le(y, c),
        None => true,
    }
}

/// The best cost after a trial that cost `c`, from the best cost `b`.
pub open spec fn after_trial(b: Option<(nat, nat)>, c: Option<(nat, nat)>) -> Option<(nat, nat)> {
    match c {
        Some(x) => if beats(x, b) {
            Some(x)
        } else {
            b
        },
        None => b,
    }
}

/// The best cost seen after the trials of the first `k` edges, whose trials
/// keeping the tensor cost `ct` and evicting it `cf`.
pub open spec fn best_after(ct: Seq<Option<(nat, nat)>>, cf: Seq<(nat, nat)>, k: int) -> Option<(nat, nat)>
    decreases k,
{
    if k <= 0 {
        None
    } else {
        after_trial(after_trial(best_after(ct, cf, k - 1), ct[k - 1]), Some(cf[k - 1]))
    }
}

/// The choice for edge `k`: keep its tensor when keeping it beat the best
/// cost before and evicting it then did not beat that.
pub open spec fn keeps_edge(ct: Seq<Option<(nat, nat)>>, cf: Seq<(nat, nat)>, k: int) -> bool {
    let b0 = best_after(ct, cf, k);
    &&& ct[k] matches Some(x) && beats(x, b0)
    &&& !beats(cf[k], after_trial(b0, ct[k]))
}

/// The edge search over the edges `es` made choices `d`: edge `k` was tried
/// keeping its tensor, at cost `ct[k]`, then evicting it, at cost `cf[k]`,
/// each after the decisions listed for the edges before it, and its choice
/// is as `keeps_edge` says.
pub open spec fn searched(
    sg: Subgraph,
    dev: DeviceParameters,
    es: Seq<(TensorId, OperationId)>,
    d: Seq<bool>,
    ct: Seq<Option<(nat, nat)>>,
    cf: Seq<(nat, nat)>,
) -> bool {
    &&& d.len() == es.len()
    &&& ct.len() == es.len()
    &&& cf.len() == es.len()
    &&& forall|k: int| 0 <= k < es.len() ==> #[trigger] d[k] == keeps_edge(ct, cf, k)
    &&& forall|k: int|
        0 <= k < es.len() ==> trial_cost(sg, dev, trials(es.take(k), d).push((es[k].0, es[k].1, true)), #[trigger] ct[k])
    &&& forall|k: int|
        0 <= k < es.len() ==> trial_cost(
            sg,
            dev,
            trials(es.take(k), d).push((es[k].0, es[k].1, true)).push((es[k].0, es[k].1, false)),
            Some(#[trigger] cf[k]),
        )
}

/// The list of decisions depends only on the choices for its edges.
proof fn lemma_trials_agree(es: Seq<(TensorId, OperationId)>, d1: Seq<bool>, d2: Seq<bool>)
    requires
        forall|j: int| 0 <= j < es.len() ==> d1[j] == d2[j],
    ensures
        trials(es, d1) == trials(es, d2),
    decreases es.len(),
{
    if es.len() > 0 {
        lemma_trials_agree(es.drop_last(), d1, d2);
    }
}

/// The best cost after `k` edges depends only on their trials.
proof fn lemma_best_agree(
    ct1: Seq<Option<(nat, nat)>>,
    cf1: Seq<(nat, nat)>,
    ct2: Seq<Option<(nat, nat)>>,
    cf2: Seq<(nat, nat)>,
    k: int,
)
    requires
        forall|j: int| 0 <= j < k ==> ct1[j] == ct2[j] && cf1[j] == cf2[j],
    ensures
        best_after(ct1, cf1, k) == best_after(ct2, cf2, k),
    decreases k,
{
    if k > 0 {
        lemma_best_agree(ct1, cf1, ct2, cf2, k - 1);
    }
}

/// Listing one more edge appends its three decisions.
proof fn lemma_trials_push(es: Seq<(TensorId, OperationId)>, d: Seq<bool>, e: (TensorId, OperationId), dk: bool)
    requires
        d.len() == es.len(),
    ensures
        trials(es.push(e), d.push(dk)) == trials(es, d) + seq![(e.0, e.1, true), (e.0, e.1, false), (e.0, e.1, dk)],
        forall|k: int| 0 <= k <= es.len() ==> #[trigger] trials(es.push(e).take(k), d.push(dk)) == trials(es.take(k), d),
{
    let es2 = es.push(e);
    let d2 = d.push(dk);
    assert(es2.drop_last() =~= es);
    lemma_trials_agree(es, d, d2);
    assert forall|k: int| 0 <= k <= es.len() implies #[trigger] trials(es2.take(k), d2) == trials(es.take(k), d) by {
        assert(es2.take(k) =~= es.take(k));
        lemma_trials_agree(es.take(k), d, d2);
    }
}

/// Recording the trials of one more edge keeps the choices made before.
proof fn lemma_choices_push(ct: Seq<Option<(nat, nat)>>, cf: Seq<(nat, nat)>, d: Seq<bool>, tk: Option<(nat, nat)>, fk: (nat, nat), dk: bool)
    requires
        d.len() == ct.len(),
        cf.len() == ct.len(),
        forall|k: int| 0 <= k < d.len() ==> #[trigger] d[k] == keeps_edge(ct, cf, k),
        dk == keeps_edge(ct.push(tk), cf.push(fk), d.len() as int),
    ensures
        forall|k: int| 0 <= k < d.len() + 1 ==> #[trigger] d.push(dk)[k] == keeps_edge(ct.push(tk), cf.push(fk), k),
{
    assert forall|k: int| 0 <= k < d.len() + 1 implies #[trigger] d.push(dk)[k] == keeps_edge(ct.push(tk), cf.push(fk), k) by {
        if k < d.len() {
            lemma_best_agree(ct, cf, ct.push(tk), cf.push(fk), k);
            assert(d.push(dk)[k] == d[k]);
            assert(ct.push(tk)[k] == ct[k] && cf.push(fk)[k] == cf[k]);
        }
    }
}

/// Recording the trials of one more edge keeps what was searched before.
proof fn lemma_searched_push(
    sg: Subgraph,
    dev: DeviceParameters,
    es: Seq<(TensorId, OperationId)>,
    d: Seq<bool>,
    ct: Seq<Option<(nat, nat)>>,
    cf: Seq<(nat, nat)>,
    e: (TensorId, OperationId),
    dk: bool,
    tk: Option<(nat, nat)>,
    fk: (nat, nat),
)
    requires
        searched(sg, dev, es, d, ct, cf),
        dk == keeps_edge(ct.push(tk), cf.push(fk), es.len() as int),
        trial_cost(sg, dev, trials(es, d).push((e.0, e.1, true)), tk),
        trial_cost(sg, dev, trials(es, d).push((e.0, e.1, true)).push((e.0, e.1, false)), Some(fk)),
    ensures
        searched(sg, dev, es.push(e), d.push(dk), ct.push(tk), cf.push(fk)),
        trials(es.push(e), d.push(dk)) == trials(es, d) + seq![(e.0, e.1, true), (e.0, e.1, false), (e.0, e.1, dk)],
{
    let es2 = es.push(e);
    let d2 = d.push(dk);
    let ct2 = ct.push(tk);
    let cf2 = cf.push(fk);
    let n = es.len() as int;
    lemma_trials_push(es, d, e, dk);
    lemma_choices_push(ct, cf, d, tk, fk, dk);
    assert forall|k: int| 0 <= k < es2.len() implies trial_cost(
        sg,
        dev,
        trials(es2.take(k), d2).push((es2[k].0, es2[k].1, true)),
        #[trigger] ct2[k],
    ) by {
        assert(trials(es2.take(k), d2) == trials(es.take(k), d));
        if k < n {
            assert(ct2[k] == ct[k] && es2[k] == es[k]);
        } else {
            assert(es.take(k) =~= es);
        }
    }
    assert forall|k: int| 0 <= k < es2.len() implies trial_cost(
        sg,
        dev,
        trials(es2.take(k), d2).push((es2[k].0, es2[k].1, true)).push((es2[k].0, es2[k].1, false)),
        Some(#[trigger] cf2[k]),
    ) by {
        assert(trials(es2.take(k), d2) == trials(es.take(k), d));
        if k < n {
            assert(cf2[k] == cf[k] && es2[k] == es[k]);
        } else {
            assert(es.take(k) =~= es);
        }
    }
}

/// A valid plan covering the subgraph and walking `e` gives its cost as
/// the trial's.
proof fn lemma_trial_some<'a>(sg: Subgraph, dev: DeviceParameters, e: Seq<(TensorId, OperationId, bool)>, parts: Seq<Partition<'a>>, x: (nat, nat))
    requires
        plan_walks(sg, e, parts),
        plan_valid(sg.graph(), dev, parts),
        plan_covers(sg, parts),
        x == plan_cost(dev, parts),
        x.1 > 0,
    ensures
        trial_cost(sg, dev, e, Some(x)),
{
    reveal(trial_cost);
}

/// A failed walk gives no cost for the trial.
proof fn lemma_trial_none(sg: Subgraph, dev: DeviceParameters, e: Seq<(TensorId, OperationId, bool)>)
    requires
        walk_fails(sg, dev, e),
    ensures
        trial_cost(sg, dev, e, None),
{
    reveal(trial_cost);
}

/// The best cost `b` so far as a fraction, if any.
pub open spec fn best_pair(b: Option<Rational>) -> Option<(nat, nat)> {
    match b {
        Some(r) => Some(r.pair()),
        None => None,
    }
}

/// Partitions the subgraph with the edge decisions `edges` and gives the
/// cost, or `None` when that fails.
fn trial<'a>(subgraph: &Subgraph<'a>, device_params: &DeviceParameters, edges: &Vec<(TensorId, OperationId, bool)>) -> (r:
    Option<Rational>)
    requires
        model_fits(subgraph.graph(), *device_params),
        subgraph.wf(),
    ensures
        r matches Some(c) ==> c.denom > 0 && trial_cost(*subgraph, *device_params, edges@, Some(c.pair())),
        r is None ==> subgraph.output_seq().len() > 0 && trial_cost(*subgraph, *device_params, edges@, None),
{
    match try_partition_subgraph(subgraph, device_params, edges) {
        Some((parts, cost)) => {
            proof {
                lemma_trial_some(*subgraph, *device_params, edges@, parts@, cost.pair());
            }
            Some(cost)
        },
        None => {
            proof {
                lemma_trial_none(*subgraph, *device_params, edges@);
            }
            None
        },
    }
}

/// Tries the edge `(t, op)` after the decisions in `edges`: partitions the
/// subgraph keeping the tensor, then evicting it, lowering `best` to each
/// cost that beats it; then lists the choice, keeping the tensor only when
/// keeping it lowered `best` and evicting it did not. Gives `false`, with the
/// failed trial last in `edges`, when the partition evicting it fails, and
/// the costs of the two trials.
fn try_edge<'a>(
    subgraph: &Subgraph<'a>,
    device_params: &DeviceParameters,
    edges: &mut Vec<(TensorId, OperationId, bool)>,
    best: &mut Option<Rational>,
    t: TensorId,
    op: OperationId,
) -> (r: (bool, Ghost<Option<(nat, nat)>>, Ghost<(nat, nat)>))
    requires
        model_fits(subgraph.graph(), *device_params),
        subgraph.wf(),
        *old(best) matches Some(b) ==> b.denom > 0,
    ensures
        *final(best) matches Some(b) ==> b.denom > 0,
        r.0 ==> {
            let b0 = best_pair(*old(best));
            let tk = r.1@;
            let fk = r.2@;
            let dk = (tk matches Some(x) && beats(x, b0)) && !beats(fk, after_trial(b0, tk));
            &&& final(edges)@ == old(edges)@ + seq![(t, op, true), (t, op, false), (t, op, dk)]
            &&& best_pair(*final(best)) == after_trial(after_trial(b0, tk), Some(fk))
            &&& trial_cost(*subgraph, *device_params, old(edges)@.push((t, op, true)), tk)
            &&& trial_cost(*subgraph, *device_params, old(edges)@.push((t, op, true)).push((t, op, false)), Some(fk))
        },
        !r.0 ==> subgraph.output_seq().len() > 0 && trial_cost(*subgraph, *device_params, final(edges)@, None)
            && final(edges)@ == old(edges)@.push((t, op, true)).push((t, op, false)),
{
    let ghost b0 = best_pair(*best);
    let mut decision = false;
    edges.push((t, op, true));
    let ghost mut tk: Option<(nat, nat)> = None;
    match trial(subgraph, device_params, edges) {
        Some(cost) => {
            proof {
                tk = Some(cost.pair());
            }
            if improves(cost, *best) {
                *best = Some(cost);
                decision = true;
            }
        },
        None => {},
    }
    edges.push((t, op, false));
    let ghost mut fk: (nat, nat) = (0, 1);
    match trial(subgraph, device_params, edges) {
        Some(cost) => {
            proof {
                fk = cost.pair();
            }
            if improves(cost, *best) {
                *best = Some(cost);
                decision = false;
            }
        },
        None => {
            return (false, Ghost(tk), Ghost(fk));
        },
    }
    edges.push((t, op, decision));
    (true, Ghost(tk), Ghost(fk))
}

/// Decides edge by edge, over the edges into the subgraph's operations from
/// tensors produced inside it, whether to keep the tensor in fast memory:
/// it partitions the subgraph keeping the tensor, then evicting it, and
/// keeps the choice that gave the lowest partition cost seen so far (evicting
/// when neither did); then partitions the subgraph with the choices made.
/// `None` when a partition evicting a tensor, or the last one, fails.
#[verifier::spinoff_prover]
#[verifier::rlimit(80)]
pub fn search_partition<'a>(subgraph: &Subgraph<'a>, device_params: &DeviceParameters) -> (r: Option<
    (Vec<Partition<'a>>, Rational),
>)
    requires
        model_fits(subgraph.graph(), *device_params),
        subgraph.wf(),
    ensures
        r matches Some((parts, cost)) ==> {
            &&& plan_valid(subgraph.graph(), *device_params, parts@)
            &&& cost.pair() == plan_cost(*device_params, parts@)
            &&& cost.denom > 0
            &&& plan_covers(*subgraph, parts@)
            &&& exists|d: Seq<bool>, ct: Seq<Option<(nat, nat)>>, cf: Seq<(nat, nat)>|
                #[trigger] searched(*subgraph, *device_params, inner_edges(*subgraph, subgraph.node_seq()), d, ct, cf)
                    && plan_walks(*subgraph, trials(inner_edges(*subgraph, subgraph.node_seq()), d), parts@)
        },
        r is None ==> subgraph.output_seq().len() > 0 && exists|
            d: Seq<bool>,
            ct: Seq<Option<(nat, nat)>>,
            cf: Seq<(nat, nat)>,
            n: int,
        |
            #[trigger] searched(*subgraph, *device_params, inner_edges(*subgraph, subgraph.node_seq()).take(n), d, ct, cf)
                && search_fails(*subgraph, *device_params, d, n),
{
    let graph = subgraph.parent();
    let ghost sg = *subgraph;
    let ghost dev = *device_params;
    let ghost g = subgraph.graph();
    let subgraph_inputs = subgraph.input_tensor_ids();
    let mut edges: Vec<(TensorId, OperationId, bool)> = Vec::new();
    let mut best_cost: Option<Rational> = None;
    let nodes = subgraph.nodes();
    let ghost mut es: Seq<(TensorId, OperationId)> = Seq::empty();
    let ghost mut d: Seq<bool> = Seq::empty();
    let ghost mut ct: Seq<Option<(nat, nat)>> = Seq::empty();
    let ghost mut cf: Seq<(nat, nat)> = Seq::empty();
    proof {
        assert(nodes@.take(0) =~= Seq::<OperationId>::empty());
    }
    for i in 0..nodes.len()
        invariant
            model_fits(g, dev),
            dev == *device_params,
            subgraph.wf(),
            sg == *subgraph,
            g == sg.graph(),
            *graph == g,
            nodes@ == sg.node_seq(),
            forall|t: TensorId| subgraph_inputs@.contains(t) <==> sg.is_input_tensor(t),
            best_cost matches Some(b) ==> b.denom > 0,
            best_cost matches Some(b) ==> best_after(ct, cf, es.len() as int) == Some(b.pair()),
            best_cost is None ==> best_after(ct, cf, es.len() as int) is None,
            es == inner_edges(sg, nodes@.take(i as int)),
            edges@ == trials(es, d),
            searched(sg, dev, es, d, ct, cf),
    {
        let op = nodes[i];
        assert(sg.node_seq()[i as int].0 < g.num_ops());
        let op_inputs = graph.input_ids_for(op);
        let ghost es_i = es;
        proof {
            assert(op_inputs@.take(0) =~= Seq::<TensorId>::empty());
            assert(es =~= es_i + op_edges(sg, op, op_inputs@.take(0)));
        }
        for q in 0..op_inputs.len()
            invariant
                model_fits(g, dev),
                dev == *device_params,
                subgraph.wf(),
                sg == *subgraph,
                g == sg.graph(),
                forall|t: TensorId| subgraph_inputs@.contains(t) <==> sg.is_input_tensor(t),
                best_cost matches Some(b) ==> b.denom > 0,
                best_cost matches Some(b) ==> best_after(ct, cf, es.len() as int) == Some(b.pair()),
                best_cost is None ==> best_after(ct, cf, es.len() as int) is None,
                es == es_i + op_edges(sg, op, op_inputs@.take(q as int)),
                i < nodes.len(),
                nodes@ == sg.node_seq(),
                es_i == inner_edges(sg, nodes@.take(i as int)),
                op == nodes@[i as int],
                op_inputs@ == g.ins()[op.0 as int],
                edges@ == trials(es, d),
                searched(sg, dev, es, d, ct, cf),
        {
            let input_id = op_inputs[q];
            proof {
                let t1 = op_inputs@.take(q + 1);
                assert(t1.drop_last() =~= op_inputs@.take(q as int));
                assert(t1.last() == input_id);
            }
            if !crate::subgraph::contains_tensor(&subgraph_inputs, input_id) {
                let ghost b0 = best_after(ct, cf, es.len() as int);
                let ghost e0 = edges@;
                let (ok, Ghost(tk), Ghost(fk)) = try_edge(subgraph, device_params, &mut edges, &mut best_cost, input_id, op);
                if !ok {
                    proof {
                        let full = inner_edges(sg, sg.node_seq());
                        let ins = op_inputs@;
                        lemma_op_edges_prefix(sg, op, ins, q as int);
                        lemma_inner_edges_prefix(sg, sg.node_seq(), i as int);
                        lemma_inner_edges_prefix(sg, sg.node_seq(), i + 1);
                        let oe = op_edges(sg, op, ins);
                        let pre = inner_edges(sg, sg.node_seq().take(i + 1));
                        assert(pre =~= es_i + oe);
                        let n = es.len() as int;
                        assert(es =~= full.take(n)) by {
                            assert forall|j: int| 0 <= j < n implies es[j] == full[j] by {
                                assert(full.take(pre.len() as int)[j] == pre[j]);
                            }
                        }
                        assert(full[n] == (input_id, op)) by {
                            assert(full.take(pre.len() as int)[n] == pre[n]);
                        }
                        assert(search_fails(sg, dev, d, n));
                        assert(searched(sg, dev, full.take(n), d, ct, cf));
                    }
                    return None;
                }
                proof {
                    let e = (input_id, op);
                    let dk = e0.len() < edges@.len() && edges@.last().2;
                    lemma_best_agree(ct, cf, ct.push(tk), cf.push(fk), es.len() as int);
                    assert(edges@ == e0 + seq![(e.0, e.1, true), (e.0, e.1, false), (e.0, e.1, dk)]);
                    assert(dk == keeps_edge(ct.push(tk), cf.push(fk), es.len() as int));
                    lemma_searched_push(sg, dev, es, d, ct, cf, e, dk, tk, fk);
                    let es2 = es.push(e);
                    let ct2 = ct.push(tk);
                    let cf2 = cf.push(fk);
                    assert(best_after(ct2, cf2, es2.len() as int) == after_trial(after_trial(b0, tk), Some(fk)));
                    es = es2;
                    d = d.push(dk);
                    ct = ct2;
                    cf = cf2;
                    assert(es =~= es_i + op_edges(sg, op, op_inputs@.take(q + 1)));
                }
            } else {
                proof {
                    assert(es =~= es_i + op_edges(sg, op, op_inputs@.take(q + 1)));
                }
            }
        }
        proof {
            let t1 = nodes@.take(i + 1);
            assert(t1.drop_last() =~= nodes@.take(i as int));
            assert(t1.last() == op);
            assert(op_inputs@.take(op_inputs.len() as int) =~= op_inputs@);
            assert(es =~= inner_edges(sg, nodes@.take(i + 1)));
        }
    }
    let r = try_partition_subgraph(subgraph, device_params, &edges);
    proof {
        assert(nodes@.take(nodes.len() as int) =~= nodes@);
        if r is Some {
            assert(plan_walks(*subgraph, edges@, r.unwrap().0@));
            assert(searched(*subgraph, *device_params, inner_edges(*subgraph, subgraph.node_seq()), d, ct, cf));
        } else {
            let full = inner_edges(sg, sg.node_seq());
            lemma_trial_none(sg, dev, edges@);
            assert(full.take(full.len() as int) =~= full);
            assert(search_fails(sg, dev, d, full.len() as int));
            assert(searched(sg, dev, full.take(full.len() as int), d, ct, cf));
        }
    }
    r
}

} // verus!
