use vstd::prelude::*;

use crate::graph::{edge, is_path, ComputationGraph, OperationId, Subgraph, TensorId};

verus! {

/// Every operation of `s` has the producers of its inputs in `s`: `s` can be
/// the set of operations executed so far.
pub open spec fn is_downset(s: Subgraph) -> bool {
    forall|op: OperationId, t: TensorId|
        #[trigger] s.has(op) && #[trigger] s.graph().ins()[op.0 as int].contains(t) ==> (s.graph().producer_spec(t) matches Some(p)
            ==> s.has(p))
}

/// `c` is what runs between two execution states `d0` and `d1`, `d0` before
/// `d1`: the operations of `d1` not in `d0`.
pub open spec fn between_states(c: Subgraph, d0: Subgraph, d1: Subgraph) -> bool {
    &&& d0.wf() && d1.wf()
    &&& d0.graph() == c.graph() && d1.graph() == c.graph()
    &&& is_downset(d0) && is_downset(d1)
    &&& forall|x: OperationId| d0.has(x) ==> d1.has(x)
    &&& forall|x: OperationId| c.has(x) <==> d1.has(x) && !d0.has(x)
}

/// A convex subgraph: connected, and the difference of two execution states.
pub open spec fn is_convex(c: Subgraph) -> bool {
    &&& c.wf()
    &&& c.num_components() == 1
    &&& exists|d0: Subgraph, d1: Subgraph| between_states(c, d0, d1)
}

/// Whether every producer of an input of `op` is in `s`.
fn dependencies_in(graph: &ComputationGraph, s: &Subgraph, op: OperationId) -> (r: bool)
    requires
        s.wf(),
        *graph == s.graph(),
        op.0 < graph.num_ops(),
    ensures
        r == forall|t: TensorId|
            #[trigger] graph.ins()[op.0 as int].contains(t) ==> (graph.producer_spec(t) matches Some(p) ==> s.has(p)),
{
    let ins = graph.input_ids_for(op);
    for q in 0..ins.len()
        invariant
            s.wf(),
            *graph == s.graph(),
            ins@ == graph.ins()[op.0 as int],
            forall|m: int|
                0 <= m < q ==> (graph.producer_spec(#[trigger] ins@[m]) matches Some(p) ==> s.has(p)),
    {
        match graph.producer_id_of(ins[q]) {
            Some(p) => {
                if !s.contains(p) {
                    assert(graph.ins()[op.0 as int].contains(ins@[q as int]));
                    return false;
                }
            },
            None => {},
        }
    }
    proof {
        assert forall|t: TensorId| #[trigger] graph.ins()[op.0 as int].contains(t) implies (graph.producer_spec(t) matches Some(
            p,
        ) ==> s.has(p)) by {
            let m = choose|m: int| 0 <= m < ins@.len() && ins@[m] == t;
        }
    }
    true
}

/// `v` holds a subgraph listing the operations `s`.
pub open spec fn listed(v: Seq<Subgraph>, s: Seq<OperationId>) -> bool {
    exists|k: int| 0 <= k < v.len() && (#[trigger] v[k]).node_seq() == s
}

/// Appending keeps what was listed.
proof fn lemma_listed_push(v: Seq<Subgraph>, x: Subgraph, s: Seq<OperationId>)
    requires
        listed(v, s),
    ensures
        listed(v.push(x), s),
{
    let k = choose|k: int| 0 <= k < v.len() && (#[trigger] v[k]).node_seq() == s;
    assert(v.push(x)[k] == v[k]);
}

/// `s` lists, in strictly increasing topological position, operations of `g`
/// that include the producers of all their inputs: the operations of an
/// execution state.
pub open spec fn downset_seq(g: ComputationGraph, s: Seq<OperationId>) -> bool {
    &&& forall|i: int| 0 <= i < s.len() ==> (#[trigger] s[i]).0 < g.num_ops()
    &&& forall|i: int, j: int| 0 <= i < j < s.len() ==> g.pos(s[i]) < g.pos(s[j])
    &&& forall|op: OperationId, t: TensorId|
        #[trigger] s.contains(op) && #[trigger] g.ins()[op.0 as int].contains(t) ==> (g.producer_spec(t) matches Some(p)
            ==> s.contains(p))
}

/// Without its last operation, an execution state of an acyclic graph is
/// still one, and the producers of the last operation's inputs are in it.
proof fn lemma_downset_drop_last(g: ComputationGraph, s: Seq<OperationId>)
    requires
        g.wf(),
        g.is_acyclic(),
        downset_seq(g, s),
        s.len() > 0,
    ensures
        downset_seq(g, s.drop_last()),
        !s.drop_last().contains(s.last()),
        forall|t: TensorId|
            #[trigger] g.ins()[s.last().0 as int].contains(t) ==> (g.producer_spec(t) matches Some(p)
                ==> s.drop_last().contains(p)),
{
    let d = s.drop_last();
    let x = s.last();
    assert(s.contains(x));
    if d.contains(x) {
        let i = choose|i: int| 0 <= i < d.len() && d[i] == x;
        assert(g.pos(s[i]) < g.pos(s[s.len() - 1]));
    }
    assert forall|op: OperationId, t: TensorId|
        #[trigger] d.contains(op) && #[trigger] g.ins()[op.0 as int].contains(t) implies (g.producer_spec(t) matches Some(
        p,
    ) ==> d.contains(p)) by {
        let i = choose|i: int| 0 <= i < d.len() && d[i] == op;
        assert(s[i] == op);
        assert(s.contains(op));
        if let Some(p) = g.producer_spec(t) {
            assert(s.contains(p));
            crate::graph::lemma_producer_before(&g, op.0 as int, t);
            let j = choose|j: int| 0 <= j < s.len() && s[j] == p;
            if j == s.len() - 1 {
                assert(g.pos(s[i]) < g.pos(s[s.len() - 1]));
            }
            assert(d[j] == p);
        }
    }
    assert forall|t: TensorId| #[trigger] g.ins()[x.0 as int].contains(t) implies (g.producer_spec(t) matches Some(p)
        ==> d.contains(p)) by {
        if let Some(p) = g.producer_spec(t) {
            assert(s.contains(p));
            crate::graph::lemma_producer_before(&g, x.0 as int, t);
            let j = choose|j: int| 0 <= j < s.len() && s[j] == p;
            assert(j != s.len() - 1);
            assert(d[j] == p);
        }
    }
}

/// Whether `list` holds a subgraph with the same operations as `s`.
fn holds_subgraph(list: &Vec<Subgraph>, s: &Subgraph) -> (r: bool)
    ensures
        r == listed(list@, s.node_seq()),
{
    for k in 0..list.len()
        invariant
            forall|j: int| 0 <= j < k ==> (#[trigger] list@[j]).node_seq() != s.node_seq(),
    {
        if list[k].same_nodes(s) {
            return true;
        }
    }
    false
}

/// An edge `a -> b` of the graph is an input of `b` that `a` produces.
proof fn lemma_edge_producer(g: ComputationGraph, a: int, b: int) -> (t: TensorId)
    requires
        g.wf(),
        g.has_edge(a, b),
    ensures
        0 <= a < g.num_ops(),
        0 <= b < g.num_ops(),
        g.ins()[b].contains(t),
        g.producer_spec(t) == Some(OperationId(a as usize)),
{
    let i = crate::graph::lemma_tensor_from_edge(&g, a, b);
    let t = g.outs()[a][i];
    assert(t.0 < g.num_tensors());
    assert(g.producer_is(t.0 as int, g.prods()[t.0 as int]));
    match g.prods()[t.0 as int] {
        Some(o) => {
            let i2 = choose|i2: int| 0 <= i2 < g.outs()[o.0 as int].len() && g.outs()[o.0 as int][i2] == TensorId(t.0);
            assert(g.outs()[o.0 as int][i2] == g.outs()[a][i]);
        },
        None => {
            assert(g.outs()[a].contains(TensorId(t.0)));
        },
    }
    t
}

proof fn lemma_path_in_downset(d: Subgraph, p: Seq<int>, j: int)
    requires
        d.wf(),
        is_downset(d),
        is_path(d.graph().outs(), d.graph().cons(), p),
        d.has(OperationId(p.last() as usize)),
        0 <= j < p.len(),
        0 <= p.last(),
    ensures
        0 <= p[j],
        d.has(OperationId(p[j] as usize)),
    decreases p.len() - j,
{
    let g = d.graph();
    if j < p.len() - 1 {
        lemma_path_in_downset(d, p, j + 1);
        assert(edge(g.outs(), g.cons(), p[j], p[j + 1]));
        let t = lemma_edge_producer(g, p[j], p[j + 1]);
    }
}

proof fn lemma_path_outside_downset(d: Subgraph, p: Seq<int>, j: int)
    requires
        d.wf(),
        is_downset(d),
        is_path(d.graph().outs(), d.graph().cons(), p),
        0 <= p[0],
        !d.has(OperationId(p[0] as usize)),
        0 <= j < p.len(),
    ensures
        0 <= p[j],
        !d.has(OperationId(p[j] as usize)),
    decreases j,
{
    let g = d.graph();
    if j > 0 {
        let k = j - 1;
        lemma_path_outside_downset(d, p, k);
        assert(edge(g.outs(), g.cons(), p[k], p[k + 1]));
        let t = lemma_edge_producer(g, p[k], p[k + 1]);
    }
}

/// A convex subgraph holds every operation on a path of the graph between
/// two of its operations.
pub proof fn lemma_convex_holds_paths(c: Subgraph, p: Seq<int>)
    requires
        is_convex(c),
        is_path(c.graph().outs(), c.graph().cons(), p),
        0 <= p[0],
        0 <= p.last(),
        c.has(OperationId(p[0] as usize)),
        c.has(OperationId(p.last() as usize)),
    ensures
        forall|j: int| 0 <= j < p.len() ==> 0 <= #[trigger] p[j] && c.has(OperationId(p[j] as usize)),
{
    let (d0, d1) = choose|d0: Subgraph, d1: Subgraph| between_states(c, d0, d1);
    assert forall|j: int| 0 <= j < p.len() implies 0 <= #[trigger] p[j] && c.has(OperationId(p[j] as usize)) by {
        lemma_path_in_downset(d1, p, j);
        lemma_path_outside_downset(d0, p, j);
    }
}

/// A well-formed execution state lists its operations as an execution state.
proof fn lemma_downset_of_state(d: Subgraph)
    requires
        d.wf(),
        is_downset(d),
    ensures
        downset_seq(d.graph(), d.node_seq()),
{
    let g = d.graph();
    let s = d.node_seq();
    assert forall|op: OperationId, t: TensorId| #[trigger] s.contains(op) && #[trigger] g.ins()[op.0 as int].contains(t) implies (
    g.producer_spec(t) matches Some(p) ==> s.contains(p)) by {
        assert(d.has(op));
    }
}

/// Every subgraph in `v` is a well-formed execution state of `g`.
pub open spec fn all_states(g: ComputationGraph, v: Seq<Subgraph>) -> bool {
    forall|k: int| 0 <= k < v.len() ==> (#[trigger] v[k]).wf() && v[k].graph() == g && is_downset(v[k])
}

/// Every execution state of `g` with at most `m` operations is listed in `v`.
pub open spec fn states_upto(g: ComputationGraph, v: Seq<Subgraph>, m: int) -> bool {
    forall|s: Seq<OperationId>| #[trigger] downset_seq(g, s) && s.len() <= m ==> listed(v, s)
}

/// The execution states of the graph: the sets of operations reachable from
/// none by adding, one at a time, an operation whose inputs' producers are all
/// executed, found level by level. In an acyclic graph that is every set of
/// operations closed under producers.
fn execution_states(graph: &ComputationGraph) -> (r: Vec<Subgraph<'_>>)
    requires
        graph.wf(),
    ensures
        all_states(*graph, r@),
        graph.is_acyclic() ==> states_upto(*graph, r@, graph.num_ops() as int),
{
    let ghost g = *graph;
    let n = graph.num_operations();
    let empty = Subgraph::from_nodes(graph, Vec::new());
    let mut states: Vec<Subgraph> = Vec::new();
    let mut layer: Vec<Subgraph> = Vec::new();
    proof {
        assert forall|op: OperationId, t: TensorId|
            #[trigger] empty.has(op) && #[trigger] empty.graph().ins()[op.0 as int].contains(t) implies (empty.graph().producer_spec(
            t,
        ) matches Some(p) ==> empty.has(p)) by {
            assert(empty.node_seq().len() == 0);
        }
    }
    states.push(empty.clone());
    layer.push(empty);
    proof {
        assert forall|s: Seq<OperationId>| #[trigger] downset_seq(g, s) && s.len() <= 0 implies listed(states@, s) by {
            assert(states@[0].node_seq() =~= s);
        }
        assert forall|s: Seq<OperationId>| #[trigger] downset_seq(g, s) && s.len() == 0 implies listed(layer@, s) by {
            assert(layer@[0].node_seq() =~= s);
        }
    }
    for round in 0..n
        invariant
            graph.wf(),
            g == *graph,
            n == g.num_ops(),
            all_states(g, states@),
            all_states(g, layer@),
            forall|k: int| 0 <= k < layer.len() ==> (#[trigger] layer@[k]).node_seq().len() == round,
            forall|q: int| 0 <= q < states.len() ==> (#[trigger] states@[q]).node_seq().len() <= round,
            g.is_acyclic() ==> states_upto(g, states@, round as int),
            g.is_acyclic() ==> forall|s: Seq<OperationId>|
                #[trigger] downset_seq(g, s) && s.len() == round ==> listed(layer@, s),
    {
        let mut next: Vec<Subgraph> = Vec::new();
        for k in 0..layer.len()
            invariant
                graph.wf(),
                g == *graph,
                n == g.num_ops(),
                all_states(g, states@),
                all_states(g, layer@),
                all_states(g, next@),
                forall|k: int| 0 <= k < layer.len() ==> (#[trigger] layer@[k]).node_seq().len() == round,
                forall|m: int| 0 <= m < next.len() ==> (#[trigger] next@[m]).node_seq().len() == round + 1,
                forall|q: int| 0 <= q < states.len() ==> (#[trigger] states@[q]).node_seq().len() <= round + 1,
                forall|q: int|
                    0 <= q < states.len() && (#[trigger] states@[q]).node_seq().len() == round + 1 ==> listed(
                        next@,
                        states@[q].node_seq(),
                    ),
                g.is_acyclic() ==> states_upto(g, states@, round as int),
                g.is_acyclic() ==> forall|s: Seq<OperationId>|
                    #[trigger] downset_seq(g, s) && s.len() == round + 1 && (exists|k2: int|
                        0 <= k2 < k && layer@[k2].node_seq() == s.drop_last()) ==> listed(states@, s),
        {
            let state = &layer[k];
            assert(state.wf() && state.graph() == g && is_downset(*state));
            for v in 0..n
                invariant
                    graph.wf(),
                    g == *graph,
                    n == g.num_ops(),
                    state.wf(),
                    state.graph() == g,
                    is_downset(*state),
                    *state == layer@[k as int],
                    0 <= k < layer.len(),
                    all_states(g, states@),
                    all_states(g, layer@),
                    all_states(g, next@),
                    forall|k: int| 0 <= k < layer.len() ==> (#[trigger] layer@[k]).node_seq().len() == round,
                    forall|m: int| 0 <= m < next.len() ==> (#[trigger] next@[m]).node_seq().len() == round + 1,
                    forall|q: int| 0 <= q < states.len() ==> (#[trigger] states@[q]).node_seq().len() <= round + 1,
                    forall|q: int|
                        0 <= q < states.len() && (#[trigger] states@[q]).node_seq().len() == round + 1 ==> listed(
                            next@,
                            states@[q].node_seq(),
                        ),
                    g.is_acyclic() ==> states_upto(g, states@, round as int),
                    g.is_acyclic() ==> forall|s: Seq<OperationId>|
                        #[trigger] downset_seq(g, s) && s.len() == round + 1 && (exists|k2: int|
                            0 <= k2 < k && layer@[k2].node_seq() == s.drop_last()) ==> listed(states@, s),
                    g.is_acyclic() ==> forall|s: Seq<OperationId>|
                        #[trigger] downset_seq(g, s) && s.len() == round + 1 && state.node_seq() == s.drop_last()
                            && s.last().0 < v ==> listed(states@, s),
            {
                let op = OperationId(v);
                let ghost st0 = states@;
                let ghost nx0 = next@;
                let ghost target = state.node_seq().push(op);
                proof {
                    if g.is_acyclic() && downset_seq(g, target) {
                        lemma_downset_drop_last(g, target);
                        assert(target.drop_last() =~= state.node_seq());
                        assert(target.last() == op);
                    }
                }
                if !state.contains(op) && dependencies_in(graph, state, op) {
                    let mut extended = state.clone();
                    proof {
                        state.lemma_same_set_same_seq(state);
                    }
                    extended.insert(op);
                    proof {
                        assert forall|x: OperationId, t: TensorId|
                            #[trigger] extended.has(x) && #[trigger] extended.graph().ins()[x.0 as int].contains(t) implies (
                            extended.graph().producer_spec(t) matches Some(p) ==> extended.has(p)) by {
                            if x == op {
                                assert(g.ins()[op.0 as int].contains(t));
                            } else {
                                assert(state.has(x));
                            }
                        }
                        if g.is_acyclic() && downset_seq(g, target) {
                            let e = extended.node_seq();
                            assert forall|i: int| 0 <= i < e.len() implies target.contains(#[trigger] e[i]) by {
                                let y = e[i];
                                assert(extended.has(y));
                                if y == op {
                                    assert(target[target.len() - 1] == op);
                                } else {
                                    assert(state.has(y));
                                    let m = choose|m: int| 0 <= m < state.node_seq().len() && state.node_seq()[m] == y;
                                    assert(target[m] == y);
                                }
                            }
                            assert forall|j: int| 0 <= j < target.len() implies e.contains(#[trigger] target[j]) by {
                                if j < target.len() - 1 {
                                    assert(target[j] == state.node_seq()[j]);
                                    assert(state.has(target[j]));
                                    assert(extended.has(target[j]));
                                } else {
                                    assert(extended.has(op));
                                }
                            }
                            crate::subgraph::lemma_sorted_unique_by_pos(g, e, target);
                        }
                    }
                    if !holds_subgraph(&states, &extended) {
                        let copy = extended.clone();
                        proof {
                            assert forall|x: OperationId, t: TensorId|
                                #[trigger] copy.has(x) && #[trigger] copy.graph().ins()[x.0 as int].contains(t) implies (
                                copy.graph().producer_spec(t) matches Some(p) ==> copy.has(p)) by {
                                assert(extended.has(x));
                            }
                        }
                        states.push(copy);
                        next.push(extended);
                        proof {
                            lemma_listed_after_push(st0, nx0, copy, extended, round as int);
                        }
                    }
                    assert(g.is_acyclic() && downset_seq(g, target) ==> listed(states@, target));
                }
                proof {
                    if g.is_acyclic() {
                        assert forall|s: Seq<OperationId>|
                            #[trigger] downset_seq(g, s) && s.len() == round + 1 && state.node_seq() == s.drop_last()
                                && s.last().0 < v + 1 implies listed(states@, s) by {
                            if s.last().0 == v {
                                assert(s =~= target);
                            }
                        }
                    }
                }
            }
        }
        proof {
            if g.is_acyclic() {
                assert forall|s: Seq<OperationId>| #[trigger] downset_seq(g, s) && s.len() <= round + 1 implies listed(
                    states@,
                    s,
                ) by {
                    if s.len() == round + 1 {
                        lemma_downset_drop_last(g, s);
                        assert(s.drop_last().len() == round);
                        assert(listed(layer@, s.drop_last()));
                    }
                }
                assert forall|s: Seq<OperationId>| #[trigger] downset_seq(g, s) && s.len() == round + 1 implies listed(
                    next@,
                    s,
                ) by {
                    lemma_downset_drop_last(g, s);
                    assert(listed(layer@, s.drop_last()));
                    assert(listed(states@, s));
                    let q = choose|q: int| 0 <= q < states.len() && (#[trigger] states@[q]).node_seq() == s;
                }
            }
        }
        layer = next;
    }
    states
}

/// After pushing the state `copy` (and `extended`, which lists the same
/// operations, to the next level), what the loop over the level knows still
/// holds.
proof fn lemma_listed_after_push(
    st0: Seq<Subgraph>,
    nx0: Seq<Subgraph>,
    copy: Subgraph,
    extended: Subgraph,
    round: int,
)
    requires
        copy.node_seq() == extended.node_seq(),
        forall|q: int|
            0 <= q < st0.len() && (#[trigger] st0[q]).node_seq().len() == round + 1 ==> listed(nx0, st0[q].node_seq()),
    ensures
        forall|q: int|
            0 <= q < st0.len() + 1 && (#[trigger] st0.push(copy)[q]).node_seq().len() == round + 1 ==> listed(
                nx0.push(extended),
                st0.push(copy)[q].node_seq(),
            ),
        forall|s: Seq<OperationId>| listed(st0, s) ==> #[trigger] listed(st0.push(copy), s),
        listed(st0.push(copy), copy.node_seq()),
{
    let st = st0.push(copy);
    let nx = nx0.push(extended);
    assert forall|q: int| 0 <= q < st.len() && (#[trigger] st[q]).node_seq().len() == round + 1 implies listed(
        nx,
        st[q].node_seq(),
    ) by {
        if q < st0.len() {
            assert(st[q] == st0[q]);
            lemma_listed_push(nx0, extended, st0[q].node_seq());
        } else {
            assert(nx[nx0.len() as int] == extended);
        }
    }
    assert forall|s: Seq<OperationId>| listed(st0, s) implies #[trigger] listed(st, s) by {
        lemma_listed_push(st0, copy, s);
    }
    assert(st[st0.len() as int] == copy);
}

/// The convex subgraphs of the graph: every connected difference `d1 \ d0`
/// of two execution states `d0 ⊆ d1`, where the execution states are the sets
/// of operations reachable from none by adding, one at a time, an operation
/// whose inputs' producers are all executed. Each is listed once; in an
/// acyclic graph every convex subgraph is listed.
pub fn extract_convex_subgraphs(graph: &ComputationGraph) -> (r: Vec<Subgraph<'_>>)
    requires
        graph.wf(),
    ensures
        forall|k: int| 0 <= k < r.len() ==> is_convex(#[trigger] r@[k]) && r@[k].graph() == *graph,
        forall|i: int, j: int| 0 <= i < j < r.len() ==> r@[i].node_seq() != r@[j].node_seq(),
        graph.is_acyclic() ==> forall|c: Subgraph| #[trigger] is_convex(c) && c.graph() == *graph ==> listed(r@, c.node_seq()),
{
    let ghost g = *graph;
    let states = execution_states(graph);
    let mut convex: Vec<Subgraph> = Vec::new();
    for i in 0..states.len()
        invariant
            graph.wf(),
            g == *graph,
            all_states(g, states@),
            forall|k: int| 0 <= k < convex.len() ==> is_convex(#[trigger] convex@[k]) && convex@[k].graph() == *graph,
            forall|a: int, b: int| 0 <= a < b < convex.len() ==> convex@[a].node_seq() != convex@[b].node_seq(),
            forall|c: Subgraph, a: int, b: int|
                0 <= a < i && 0 <= b < states.len() && c.wf() && c.num_components() == 1 && #[trigger] between_states(
                    c,
                    states@[a],
                    states@[b],
                ) ==> listed(convex@, c.node_seq()),
    {
        for j in 0..states.len()
            invariant
                graph.wf(),
                g == *graph,
                0 <= i < states.len(),
                all_states(g, states@),
                forall|k: int|
                    0 <= k < convex.len() ==> is_convex(#[trigger] convex@[k]) && convex@[k].graph() == *graph,
                forall|a: int, b: int| 0 <= a < b < convex.len() ==> convex@[a].node_seq() != convex@[b].node_seq(),
                forall|c: Subgraph, a: int, b: int|
                    (0 <= a < i || (a == i && 0 <= b < j)) && 0 <= b < states.len() && c.wf() && c.num_components() == 1
                        && #[trigger] between_states(c, states@[a], states@[b]) ==> listed(convex@, c.node_seq()),
        {
            let s0 = &states[i];
            let s1 = &states[j];
            assert(s0.wf() && s1.wf() && s0.graph() == s1.graph());
            let ghost cv0 = convex@;
            if s0.is_subset(s1) {
                let c = s1.subtract(s0);
                if c.components() == 1 && !holds_subgraph(&convex, &c) {
                    proof {
                        assert(between_states(c, *s0, *s1));
                    }
                    convex.push(c);
                    proof {
                        assert forall|a: int, b: int| 0 <= a < b < convex.len() implies convex@[a].node_seq()
                            != convex@[b].node_seq() by {
                            if b == convex.len() - 1 {
                                assert(convex@[a] == cv0[a]);
                            } else {
                                assert(convex@[a] == cv0[a] && convex@[b] == cv0[b]);
                            }
                        }
                        assert forall|x: Seq<OperationId>| listed(cv0, x) implies #[trigger] listed(convex@, x) by {
                            lemma_listed_push(cv0, c, x);
                        }
                        assert(convex@[cv0.len() as int] == c);
                    }
                }
                proof {
                    assert forall|cc: Subgraph| cc.wf() && cc.num_components() == 1 && #[trigger] between_states(
                        cc,
                        *s0,
                        *s1,
                    ) implies listed(convex@, cc.node_seq()) by {
                        cc.lemma_same_set_same_seq(&c);
                        cc.lemma_same_nodes_same_components(&c);
                    }
                }
            }
            proof {
                assert forall|cc: Subgraph, a: int, b: int|
                    (0 <= a < i || (a == i && 0 <= b < j + 1)) && 0 <= b < states.len() && cc.wf() && cc.num_components()
                        == 1 && #[trigger] between_states(cc, states@[a], states@[b]) implies listed(
                    convex@,
                    cc.node_seq(),
                ) by {
                    if !(a == i && b == j) {
                        assert(listed(cv0, cc.node_seq()));
                        if convex@ != cv0 {
                            assert(convex@ == cv0.push(convex@[cv0.len() as int]));
                            lemma_listed_push(cv0, convex@[cv0.len() as int], cc.node_seq());
                        }
                    }
                }
            }
        }
    }
    proof {
        if g.is_acyclic() {
            assert forall|c: Subgraph| #[trigger] is_convex(c) && c.graph() == *graph implies listed(convex@, c.node_seq()) by {
                let (d0, d1) = choose|d0: Subgraph, d1: Subgraph| between_states(c, d0, d1);
                lemma_downset_of_state(d0);
                lemma_downset_of_state(d1);
                d0.lemma_len_bound();
                d1.lemma_len_bound();
                assert(listed(states@, d0.node_seq()));
                assert(listed(states@, d1.node_seq()));
                let a = choose|a: int| 0 <= a < states.len() && (#[trigger] states@[a]).node_seq() == d0.node_seq();
                let b = choose|b: int| 0 <= b < states.len() && (#[trigger] states@[b]).node_seq() == d1.node_seq();
                let e0 = states@[a];
                let e1 = states@[b];
                assert(forall|x: OperationId| e0.has(x) == d0.has(x));
                assert(forall|x: OperationId| e1.has(x) == d1.has(x));
                assert(is_downset(e0) && is_downset(e1));
                assert(between_states(c, e0, e1));
            }
        }
    }
    convex
}

/// Subgraph `k` reads a tensor that `op` produces.
pub open spec fn reads_output_of(sg: Subgraph, op: OperationId) -> bool {
    exists|t: TensorId| #[trigger] sg.is_input_tensor(t) && sg.graph().producer_spec(t) == Some(op)
}

/// The constraints of the execution plan, one per operation in topological
/// order: the subgraphs that contain the operation (at least one of them must
/// be picked), and the subgraphs that read a tensor it produces (picking one
/// of them requires picking a subgraph that contains the operation).
pub fn cover_constraints(graph: &ComputationGraph, subgraphs: &Vec<Subgraph>) -> (r: Vec<
    (OperationId, Vec<usize>, Vec<usize>),
>)
    requires
        graph.wf(),
        forall|k: int| 0 <= k < subgraphs.len() ==> (#[trigger] subgraphs@[k]).wf() && subgraphs@[k].graph() == *graph,
    ensures
        r.len() == graph.num_ops(),
        forall|i: int| 0 <= i < r.len() ==> (#[trigger] r@[i]).0 == graph.topo().order_seq()[i],
        forall|i: int, k: usize|
            0 <= i < r.len() ==> (#[trigger] r@[i].1@.contains(k) <==> k < subgraphs.len() && subgraphs@[k as int].has(
                r@[i].0,
            )),
        forall|i: int, k: usize|
            0 <= i < r.len() ==> (#[trigger] r@[i].2@.contains(k) <==> k < subgraphs.len() && reads_output_of(
                subgraphs@[k as int],
                r@[i].0,
            )),
{
    let ghost g = *graph;
    let order = graph.topological_sort().order();
    let mut inputs: Vec<Vec<TensorId>> = Vec::new();
    for k in 0..subgraphs.len()
        invariant
            forall|k: int| 0 <= k < subgraphs.len() ==> (#[trigger] subgraphs@[k]).wf() && subgraphs@[k].graph() == g,
            inputs.len() == k,
            forall|j: int| 0 <= j < k ==> forall|t: TensorId| (#[trigger] inputs@[j])@.contains(t) <==> subgraphs@[j].is_input_tensor(t),
    {
        inputs.push(subgraphs[k].input_tensor_ids());
    }
    let mut r: Vec<(OperationId, Vec<usize>, Vec<usize>)> = Vec::new();
    for i in 0..order.len()
        invariant
            g == *graph,
            graph.wf(),
            order@ == g.topo().order_seq(),
            g.topo().wf(g.num_ops()),
            forall|k: int| 0 <= k < subgraphs.len() ==> (#[trigger] subgraphs@[k]).wf() && subgraphs@[k].graph() == g,
            inputs.len() == subgraphs.len(),
            forall|j: int| 0 <= j < subgraphs.len() ==> forall|t: TensorId| (#[trigger] inputs@[j])@.contains(t) <==> subgraphs@[j].is_input_tensor(t),
            r.len() == i,
            forall|a: int| 0 <= a < i ==> (#[trigger] r@[a]).0 == order@[a],
            forall|a: int, k: usize|
                0 <= a < i ==> (#[trigger] r@[a].1@.contains(k) <==> k < subgraphs.len() && subgraphs@[k as int].has(r@[a].0)),
            forall|a: int, k: usize|
                0 <= a < i ==> (#[trigger] r@[a].2@.contains(k) <==> k < subgraphs.len() && reads_output_of(subgraphs@[k as int], r@[a].0)),
    {
        let op = order[i];
        assert(g.topo().order_seq()[i as int].0 < g.num_ops());
        let mut covers: Vec<usize> = Vec::new();
        let mut readers: Vec<usize> = Vec::new();
        for k in 0..subgraphs.len()
            invariant
                g == *graph,
                graph.wf(),
                op.0 < g.num_ops(),
                forall|k: int| 0 <= k < subgraphs.len() ==> (#[trigger] subgraphs@[k]).wf() && subgraphs@[k].graph() == g,
                inputs.len() == subgraphs.len(),
                forall|j: int| 0 <= j < subgraphs.len() ==> forall|t: TensorId| (#[trigger] inputs@[j])@.contains(t) <==> subgraphs@[j].is_input_tensor(t),
                forall|x: usize| covers@.contains(x) <==> x < k && subgraphs@[x as int].has(op),
                forall|x: usize| readers@.contains(x) <==> x < k && reads_output_of(subgraphs@[x as int], op),
        {
            let ghost c0 = covers@;
            let ghost r0 = readers@;
            let has = subgraphs[k].contains(op);
            if has {
                covers.push(k);
            }
            let ins = &inputs[k];
            let mut reads = false;
            for q in 0..ins.len()
                invariant
                    g == *graph,
                    graph.wf(),
                    *ins == inputs@[k as int],
                    reads == exists|m: int| 0 <= m < q && g.producer_spec(#[trigger] ins@[m]) == Some(op),
            {
                if graph.producer_id_of(ins[q]) == Some(op) {
                    reads = true;
                }
            }
            proof {
                assert(reads == reads_output_of(subgraphs@[k as int], op)) by {
                    let iv = inputs@[k as int];
                    assert(forall|t: TensorId| iv@.contains(t) <==> subgraphs@[k as int].is_input_tensor(t));
                    if reads {
                        let m = choose|m: int| 0 <= m < ins.len() && g.producer_spec(#[trigger] ins@[m]) == Some(op);
                        assert(ins@.contains(ins@[m]));
                        assert(subgraphs@[k as int].is_input_tensor(ins@[m]));
                    }
                    if reads_output_of(subgraphs@[k as int], op) {
                        let t = choose|t: TensorId| #[trigger] subgraphs@[k as int].is_input_tensor(t) && g.producer_spec(t) == Some(op);
                        assert(iv@.contains(t));
                        let m = choose|m: int| 0 <= m < ins.len() && ins@[m] == t;
                        assert(g.producer_spec(ins@[m]) == Some(op));
                    }
                }
            }
            if reads {
                readers.push(k);
            }
            proof {
                assert forall|x: usize| covers@.contains(x) <==> x < k + 1 && subgraphs@[x as int].has(op) by {
                    if has { crate::traversal::lemma_push_has(c0, k, x); }
                }
                assert forall|x: usize| readers@.contains(x) <==> x < k + 1 && reads_output_of(subgraphs@[x as int], op) by {
                    if reads { crate::traversal::lemma_push_has(r0, k, x); }
                }
            }
        }
        let ghost r0 = r@;
        r.push((op, covers, readers));
        proof {
            assert forall|a: int, k: usize| 0 <= a < i + 1 implies (#[trigger] r@[a].1@.contains(k) <==> k
                < subgraphs.len() && subgraphs@[k as int].has(r@[a].0)) by {
                if a < i {
                    assert(r@[a] == r0[a]);
                }
            }
            assert forall|a: int, k: usize| 0 <= a < i + 1 implies (#[trigger] r@[a].2@.contains(k) <==> k
                < subgraphs.len() && reads_output_of(subgraphs@[k as int], r@[a].0)) by {
                if a < i {
                    assert(r@[a] == r0[a]);
                }
            }
        }
    }
    r
}

} // verus!
