use vstd::prelude::*;

use crate::graph::{ComputationGraph, OperationId, TensorId};

verus! {

/// Distinct operations of a well-formed graph have distinct positions.
pub proof fn lemma_pos_injective(g: &ComputationGraph, a: OperationId, b: OperationId)
    requires
        g.wf(),
        a.0 < g.num_ops(),
        b.0 < g.num_ops(),
    ensures
        0 <= g.pos(a) < g.num_ops(),
        0 <= g.pos(b) < g.num_ops(),
        g.pos(a) == g.pos(b) <==> a == b,
{
    assert(g.topo().order_seq()[g.topo().position_seq()[a.0 as int] as int].0 == a.0);
    assert(g.topo().order_seq()[g.topo().position_seq()[b.0 as int] as int].0 == b.0);
}

/// A set of operations of a graph, kept sorted by topological position.
pub struct Subgraph<'a> {
    parent: &'a ComputationGraph,
    nodes: Vec<OperationId>,
}

impl<'a> Subgraph<'a> {
    pub closed spec fn graph(&self) -> ComputationGraph {
        *self.parent
    }

    pub closed spec fn node_seq(&self) -> Seq<OperationId> {
        self.nodes@
    }

    /// `op` is one of the subgraph's operations.
    pub open spec fn has(&self, op: OperationId) -> bool {
        self.node_seq().contains(op)
    }

    /// The nodes are operations of the graph, in strictly increasing position.
    pub open spec fn wf(&self) -> bool {
        &&& self.graph().wf()
        &&& forall|i: int| 0 <= i < self.node_seq().len() ==> (#[trigger] self.node_seq()[i]).0 < self.graph().num_ops()
        &&& forall|i: int, j: int|
            0 <= i < j < self.node_seq().len() ==> self.graph().pos(self.node_seq()[i]) < self.graph().pos(
                self.node_seq()[j],
            )
    }

    /// Two well-formed subgraphs with the same operations list them alike.
    pub proof fn lemma_same_set_same_seq(&self, other: &Subgraph)
        requires
            self.wf(),
            other.wf(),
            self.graph() == other.graph(),
            forall|x: OperationId| self.has(x) <==> other.has(x),
        ensures
            self.node_seq() == other.node_seq(),
        decreases self.node_seq().len(),
    {
        let g = self.graph();
        let a = self.node_seq();
        let b = other.node_seq();
        assert forall|i: int| 0 <= i < a.len() implies b.contains(#[trigger] a[i]) by {
            assert(self.has(a[i]));
        }
        assert forall|j: int| 0 <= j < b.len() implies a.contains(#[trigger] b[j]) by {
            assert(other.has(b[j]));
        }
        lemma_sorted_unique_by_pos(g, a, b);
    }

    /// A subgraph has at most as many nodes as the graph has operations.
    pub proof fn lemma_len_bound(&self)
        requires
            self.wf(),
        ensures
            self.node_seq().len() <= self.graph().num_ops(),
    {
        let g = self.graph();
        let s = self.node_seq();
        if s.len() > 0 {
            assert forall|i: int| 0 <= i < s.len() implies g.pos(#[trigger] s[i]) >= i by {
                self.lemma_pos_at_least(i);
            }
            lemma_pos_injective(&g, s[s.len() - 1], s[s.len() - 1]);
            assert(g.pos(s[s.len() - 1]) >= s.len() - 1);
        }
    }

    proof fn lemma_pos_at_least(&self, i: int)
        requires
            self.wf(),
            0 <= i < self.node_seq().len(),
        ensures
            self.graph().pos(self.node_seq()[i]) >= i,
        decreases i,
    {
        let g = self.graph();
        lemma_pos_injective(&g, self.node_seq()[i], self.node_seq()[i]);
        if i > 0 {
            self.lemma_pos_at_least(i - 1);
        }
    }

    pub fn parent(&self) -> (r: &'a ComputationGraph)
        ensures
            *r == self.graph(),
    {
        self.parent
    }

    pub fn nodes(&self) -> (r: &[OperationId])
        ensures
            r@ == self.node_seq(),
    {
        self.nodes.as_slice()
    }

    pub fn is_empty(&self) -> (r: bool)
        ensures
            r == (self.node_seq().len() == 0),
    {
        self.nodes.len() == 0
    }

    /// The subgraph of `parent` made of the given distinct operations.
    pub fn from_nodes(parent: &'a ComputationGraph, ops: Vec<OperationId>) -> (r: Subgraph<'a>)
        requires
            parent.wf(),
            ops@.no_duplicates(),
            forall|i: int| 0 <= i < ops.len() ==> (#[trigger] ops@[i]).0 < parent.num_ops(),
        ensures
            r.wf(),
            r.graph() == *parent,
            forall|x: OperationId| r.has(x) <==> ops@.contains(x),
            r.node_seq().len() == ops.len(),
    {
        let ghost g = *parent;
        let ghost ops0 = ops@;
        let topo = parent.topological_sort();
        let nodes = topo.sort(ops);
        let r = Subgraph { parent, nodes };
        proof {
            let s = nodes@;
            vstd::seq_lib::to_multiset_len(s);
            vstd::seq_lib::to_multiset_len(ops0);
            ops@.lemma_multiset_has_no_duplicates();
            assert forall|x: OperationId| r.has(x) <==> ops@.contains(x) by {
                vstd::seq_lib::to_multiset_contains(s, x);
                vstd::seq_lib::to_multiset_contains(ops@, x);
            }
            assert forall|x: OperationId| s.to_multiset().count(x) <= 1 by {}
            s.lemma_multiset_has_no_duplicates_conv();
            assert forall|i: int, j: int| 0 <= i < j < s.len() implies g.pos(s[i]) < g.pos(s[j]) by {
                lemma_pos_injective(&g, s[i], s[j]);
            }
        }
        r
    }

    /// Index of the first node whose position is not below `p`.
    fn lower_bound(&self, p: usize) -> (r: usize)
        requires
            self.wf(),
        ensures
            r <= self.node_seq().len(),
            forall|k: int| 0 <= k < r ==> self.graph().pos(#[trigger] self.node_seq()[k]) < p,
            forall|k: int| r <= k < self.node_seq().len() ==> self.graph().pos(#[trigger] self.node_seq()[k]) >= p,
    {
        let topo = self.parent.topological_sort();
        let mut lo: usize = 0;
        let mut hi: usize = self.nodes.len();
        while lo < hi
            invariant
                self.wf(),
                *topo == self.graph().topo(),
                lo <= hi <= self.node_seq().len(),
                forall|k: int| 0 <= k < lo ==> self.graph().pos(#[trigger] self.node_seq()[k]) < p,
                forall|k: int| hi <= k < self.node_seq().len() ==> self.graph().pos(#[trigger] self.node_seq()[k]) >= p,
            decreases hi - lo,
        {
            let mid = lo + (hi - lo) / 2;
            let node = self.nodes[mid];
            assert(node.0 < self.graph().num_ops());
            let pm = topo.position_at(node);
            if pm < p {
                assert forall|k: int| 0 <= k <= mid implies self.graph().pos(#[trigger] self.node_seq()[k]) < p by {
                    if k < mid {
                        assert(self.graph().pos(self.node_seq()[k]) < self.graph().pos(self.node_seq()[mid as int]));
                    }
                }
                lo = mid + 1;
            } else {
                assert forall|k: int| mid <= k < self.node_seq().len() implies self.graph().pos(#[trigger] self.node_seq()[k]) >= p by {
                    if k > mid {
                        assert(self.graph().pos(self.node_seq()[mid as int]) < self.graph().pos(self.node_seq()[k]));
                    }
                }
                hi = mid;
            }
        }
        lo
    }

    /// Whether `operation_id` is one of the subgraph's operations.
    pub fn contains(&self, operation_id: OperationId) -> (r: bool)
        requires
            self.wf(),
            operation_id.0 < self.graph().num_ops(),
        ensures
            r == self.has(operation_id),
    {
        let topo = self.parent.topological_sort();
        let p = topo.position_at(operation_id);
        let idx = self.lower_bound(p);
        let r = idx < self.nodes.len() && self.nodes[idx] == operation_id;
        proof {
            if !r && self.has(operation_id) {
                let k = choose|k: int| 0 <= k < self.node_seq().len() && self.node_seq()[k] == operation_id;
                if idx < self.node_seq().len() {
                    lemma_pos_injective(&self.graph(), self.node_seq()[idx as int], operation_id);
                    if k > idx {
                        assert(self.graph().pos(self.node_seq()[idx as int]) < self.graph().pos(self.node_seq()[k]));
                    }
                }
            }
        }
        r
    }

    /// Whether every operation of `self` is one of `other`.
    pub fn is_subset(&self, other: &Subgraph) -> (r: bool)
        requires
            self.wf(),
            other.wf(),
            self.graph() == other.graph(),
        ensures
            r == forall|x: OperationId| self.has(x) ==> other.has(x),
    {
        let ghost g = self.graph();
        let ghost a = self.node_seq();
        let ghost b = other.node_seq();
        let topo = self.parent.topological_sort();
        let mut j: usize = 0;
        for i in 0..self.nodes.len()
            invariant
                self.wf(),
                other.wf(),
                g == self.graph(),
                g == other.graph(),
                a == self.node_seq(),
                b == other.node_seq(),
                *topo == g.topo(),
                j <= b.len(),
                forall|k: int| 0 <= k < i ==> b.contains(#[trigger] a[k]),
                i < a.len() ==> forall|k: int| 0 <= k < j ==> g.pos(#[trigger] b[k]) < g.pos(a[i as int]),
        {
            let node = self.nodes[i];
            let pos = topo.position_at(node);
            while j < other.nodes.len() && topo.position_at(other.nodes[j]) < pos
                invariant
                    other.wf(),
                    g == other.graph(),
                    b == other.node_seq(),
                    *topo == g.topo(),
                    j <= b.len(),
                    pos == g.pos(node),
                    forall|k: int| 0 <= k < j ==> g.pos(#[trigger] b[k]) < pos,
                decreases b.len() - j,
            {
                j += 1;
            }
            if j >= other.nodes.len() || other.nodes[j] != node {
                proof {
                    if b.contains(node) {
                        let k = choose|k: int| 0 <= k < b.len() && b[k] == node;
                        if j < b.len() {
                            lemma_pos_injective(&g, b[j as int], node);
                            if k > j {
                                assert(g.pos(b[j as int]) < g.pos(b[k]));
                            }
                        }
                    }
                    assert(self.has(node));
                }
                return false;
            }
            j += 1;
            proof {
                if i + 1 < a.len() {
                    assert forall|k: int| 0 <= k < j implies g.pos(#[trigger] b[k]) < g.pos(a[i + 1]) by {
                        assert(g.pos(a[i as int]) < g.pos(a[i + 1]));
                        if k < j - 1 {
                            assert(g.pos(b[k]) < g.pos(b[j - 1]));
                        }
                    }
                }
            }
        }
        proof {
            assert forall|x: OperationId| self.has(x) implies other.has(x) by {
                let k = choose|k: int| 0 <= k < a.len() && a[k] == x;
                assert(b.contains(a[k]));
            }
        }
        true
    }

    /// The operations of `self` that are not in `other`, in order.
    pub fn subtract(&self, other: &Subgraph) -> (r: Subgraph<'a>)
        requires
            self.wf(),
            other.wf(),
            self.graph() == other.graph(),
        ensures
            r.wf(),
            r.graph() == self.graph(),
            r.node_seq() == self.node_seq().filter(|x: OperationId| !other.has(x)),
            forall|x: OperationId| r.has(x) <==> (self.has(x) && !other.has(x)),
    {
        let ghost g = self.graph();
        let ghost a = self.node_seq();
        let ghost b = other.node_seq();
        let ghost pred = |x: OperationId| !other.has(x);
        let topo = self.parent.topological_sort();
        let mut j: usize = 0;
        let mut nodes: Vec<OperationId> = Vec::new();
        for i in 0..self.nodes.len()
            invariant
                self.wf(),
                other.wf(),
                g == self.graph(),
                g == other.graph(),
                a == self.node_seq(),
                b == other.node_seq(),
                pred == (|x: OperationId| !other.has(x)),
                *topo == g.topo(),
                j <= b.len(),
                nodes@ == a.take(i as int).filter(pred),
                i < a.len() ==> forall|k: int| 0 <= k < j ==> g.pos(#[trigger] b[k]) < g.pos(a[i as int]),
        {
            let node = self.nodes[i];
            let pos = topo.position_at(node);
            while j < other.nodes.len() && topo.position_at(other.nodes[j]) < pos
                invariant
                    other.wf(),
                    g == other.graph(),
                    b == other.node_seq(),
                    *topo == g.topo(),
                    j <= b.len(),
                    pos == g.pos(node),
                    forall|k: int| 0 <= k < j ==> g.pos(#[trigger] b[k]) < pos,
                decreases b.len() - j,
            {
                j += 1;
            }
            proof {
                reveal(Seq::filter);
                assert(a.take(i + 1).drop_last() =~= a.take(i as int));
                assert(a.take(i + 1).last() == node);
            }
            if j < other.nodes.len() && other.nodes[j] == node {
                j += 1;
                assert(b.contains(node));
                proof {
                    if i + 1 < a.len() {
                        assert forall|k: int| 0 <= k < j implies g.pos(#[trigger] b[k]) < g.pos(a[i + 1]) by {
                            assert(g.pos(a[i as int]) < g.pos(a[i + 1]));
                            if k < j - 1 {
                                assert(g.pos(b[k]) < g.pos(b[j - 1]));
                            }
                        }
                    }
                }
            } else {
                proof {
                    if b.contains(node) {
                        let k = choose|k: int| 0 <= k < b.len() && b[k] == node;
                        if j < b.len() {
                            lemma_pos_injective(&g, b[j as int], node);
                            if k > j {
                                assert(g.pos(b[j as int]) < g.pos(b[k]));
                            }
                        }
                    }
                    if i + 1 < a.len() {
                        assert forall|k: int| 0 <= k < j implies g.pos(#[trigger] b[k]) < g.pos(a[i + 1]) by {
                            assert(g.pos(a[i as int]) < g.pos(a[i + 1]));
                        }
                    }
                }
                nodes.push(node);
            }
        }
        assert(a.take(a.len() as int) =~= a);
        let r = Subgraph { parent: self.parent, nodes };
        proof {
            broadcast use vstd::seq_lib::group_filter_ensures;
            let f = a.filter(pred);
            assert forall|x: OperationId| r.has(x) <==> (self.has(x) && !other.has(x)) by {
                if r.has(x) {
                    let k = choose|k: int| 0 <= k < f.len() && f[k] == x;
                    assert(pred(f[k]));
                    lemma_filter_subseq(a, pred, k);
                }
                if self.has(x) && !other.has(x) {
                    let k = choose|k: int| 0 <= k < a.len() && a[k] == x;
                    assert(f.contains(a[k]));
                }
            }
            lemma_filter_sorted(g, a, pred);
        }
        r
    }

    /// `t` is consumed by an operation of the subgraph but not produced by one.
    pub open spec fn is_input_tensor(&self, t: TensorId) -> bool {
        &&& exists|op: OperationId| #[trigger] self.has(op) && self.graph().ins()[op.0 as int].contains(t)
        &&& match self.graph().producer_spec(t) {
            Some(p) => !self.has(p),
            None => true,
        }
    }

    /// `t` is produced by an operation of the subgraph and has no consumer, or
    /// a consumer outside the subgraph.
    pub open spec fn is_output_tensor(&self, t: TensorId) -> bool {
        &&& exists|op: OperationId| #[trigger] self.has(op) && self.graph().outs()[op.0 as int].contains(t)
        &&& (self.graph().cons()[t.0 as int].len() == 0 || exists|k: int|
            0 <= k < self.graph().cons()[t.0 as int].len() && !self.has(
                #[trigger] self.graph().cons()[t.0 as int][k],
            ))
    }

    /// Two subgraphs of one graph listing the same operations have the same
    /// input and output tensors.
    pub proof fn lemma_same_nodes_same_tensors(&self, other: &Subgraph)
        requires
            self.graph() == other.graph(),
            self.node_seq() == other.node_seq(),
        ensures
            self.output_seq() == other.output_seq(),
            self.input_seq() == other.input_seq(),
            forall|t: TensorId| #[trigger] self.is_output_tensor(t) == other.is_output_tensor(t),
            forall|t: TensorId| #[trigger] self.is_input_tensor(t) == other.is_input_tensor(t),
    {
        assert forall|t: TensorId| #[trigger] self.is_output_tensor(t) == other.is_output_tensor(t) by {
            if self.is_output_tensor(t) {
                let op = choose|op: OperationId| #[trigger] self.has(op) && self.graph().outs()[op.0 as int].contains(t);
                assert(other.has(op));
                if self.graph().cons()[t.0 as int].len() != 0 {
                    let k = choose|k: int|
                        0 <= k < self.graph().cons()[t.0 as int].len() && !self.has(
                            #[trigger] self.graph().cons()[t.0 as int][k],
                        );
                    assert(!other.has(other.graph().cons()[t.0 as int][k]));
                }
            }
            if other.is_output_tensor(t) {
                let op = choose|op: OperationId| #[trigger] other.has(op) && other.graph().outs()[op.0 as int].contains(t);
                assert(self.has(op));
                if other.graph().cons()[t.0 as int].len() != 0 {
                    let k = choose|k: int|
                        0 <= k < other.graph().cons()[t.0 as int].len() && !other.has(
                            #[trigger] other.graph().cons()[t.0 as int][k],
                        );
                    assert(!self.has(self.graph().cons()[t.0 as int][k]));
                }
            }
        }
        assert forall|t: TensorId| #[trigger] self.is_input_tensor(t) == other.is_input_tensor(t) by {
            if self.is_input_tensor(t) {
                let op = choose|op: OperationId| #[trigger] self.has(op) && self.graph().ins()[op.0 as int].contains(t);
                assert(other.has(op));
            }
            if other.is_input_tensor(t) {
                let op = choose|op: OperationId| #[trigger] other.has(op) && other.graph().ins()[op.0 as int].contains(t);
                assert(self.has(op));
            }
        }
        assert((|t: TensorId| self.is_output_tensor(t)) =~= (|t: TensorId| other.is_output_tensor(t)));
        assert((|t: TensorId| self.is_input_tensor(t)) =~= (|t: TensorId| other.is_input_tensor(t)));
    }

    /// The tensors consumed by operations of this subgraph, in increasing id order.
    pub open spec fn input_seq(&self) -> Seq<TensorId> {
        tensor_ids_where(self.graph().num_tensors(), |t: TensorId| self.is_input_tensor(t))
    }

    /// The outputs of this subgraph, in increasing id order.
    pub open spec fn output_seq(&self) -> Seq<TensorId> {
        tensor_ids_where(self.graph().num_tensors(), |t: TensorId| self.is_output_tensor(t))
    }

    /// Whether an operation of the subgraph consumes `tensor_id`.
    fn consumed_inside(&self, tensor_id: TensorId) -> (r: bool)
        requires
            self.wf(),
            tensor_id.0 < self.graph().num_tensors(),
        ensures
            r == exists|op: OperationId| #[trigger] self.has(op) && self.graph().ins()[op.0 as int].contains(tensor_id),
    {
        let graph = self.parent;
        let ghost g = self.graph();
        let consumers = graph.consumer_ids_for(tensor_id);
        let mut found = false;
        for m in 0..consumers.len()
            invariant
                self.wf(),
                g == self.graph(),
                *graph == g,
                tensor_id.0 < g.num_tensors(),
                consumers@ == g.cons()[tensor_id.0 as int],
                found == exists|q: int| 0 <= q < m && self.has(#[trigger] consumers@[q]),
        {
            proof {
                crate::graph::lemma_consumer_list_bound(g.ins(), tensor_id, m as int);
            }
            if self.contains(consumers[m]) {
                found = true;
            }
        }
        proof {
            assert(g.cons()[tensor_id.0 as int] == crate::graph::consumer_list(g.ins(), TensorId(tensor_id.0)));
            if found {
                let q = choose|q: int| 0 <= q < consumers@.len() && self.has(#[trigger] consumers@[q]);
                let op = consumers@[q];
                crate::graph::lemma_consumer_list_contains(g.ins(), tensor_id, op.0 as int);
                assert(self.has(op) && g.ins()[op.0 as int].contains(tensor_id));
            }
            if exists|op: OperationId| #[trigger] self.has(op) && g.ins()[op.0 as int].contains(tensor_id) {
                let op = choose|op: OperationId| #[trigger] self.has(op) && g.ins()[op.0 as int].contains(tensor_id);
                let j = choose|j: int| 0 <= j < self.node_seq().len() && self.node_seq()[j] == op;
                assert(op.0 < g.num_ops());
                crate::graph::lemma_consumer_list_contains(g.ins(), tensor_id, op.0 as int);
                let q = choose|q: int|
                    0 <= q < crate::graph::consumer_list(g.ins(), tensor_id).len()
                        && #[trigger] crate::graph::consumer_list(g.ins(), tensor_id)[q].0 == op.0;
                assert(consumers@[q] == op);
            }
        }
        found
    }

    /// Whether an operation outside the subgraph consumes `tensor_id`, or none does.
    fn escapes(&self, tensor_id: TensorId) -> (r: bool)
        requires
            self.wf(),
            tensor_id.0 < self.graph().num_tensors(),
        ensures
            r == (self.graph().cons()[tensor_id.0 as int].len() == 0 || exists|k: int|
                0 <= k < self.graph().cons()[tensor_id.0 as int].len() && !self.has(
                    #[trigger] self.graph().cons()[tensor_id.0 as int][k],
                )),
    {
        let graph = self.parent;
        let ghost g = self.graph();
        let consumers = graph.consumer_ids_for(tensor_id);
        let mut keep = consumers.len() == 0;
        for m in 0..consumers.len()
            invariant
                self.wf(),
                g == self.graph(),
                *graph == g,
                tensor_id.0 < g.num_tensors(),
                consumers@ == g.cons()[tensor_id.0 as int],
                keep == (consumers.len() == 0 || exists|q: int| 0 <= q < m && !self.has(#[trigger] g.cons()[tensor_id.0 as int][q])),
        {
            proof {
                crate::graph::lemma_consumer_list_bound(g.ins(), tensor_id, m as int);
            }
            if !self.contains(consumers[m]) {
                keep = true;
            }
        }
        keep
    }

    /// The tensors consumed by operations of this subgraph that no operation of
    /// this subgraph produces, each once, in increasing id order.
    pub fn input_tensor_ids(&self) -> (r: Vec<TensorId>)
        requires
            self.wf(),
        ensures
            r@ == self.input_seq(),
            r@.no_duplicates(),
            forall|t: TensorId| r@.contains(t) <==> self.is_input_tensor(t),
            forall|k: int| 0 <= k < r.len() ==> (#[trigger] r@[k]).0 < self.graph().num_tensors(),
    {
        let graph = self.parent;
        let ghost g = self.graph();
        let ghost pred = |t: TensorId| self.is_input_tensor(t);
        let nt = graph.tensors().len();
        let mut r: Vec<TensorId> = Vec::new();
        for t in 0..nt
            invariant
                self.wf(),
                g == self.graph(),
                *graph == g,
                nt == g.num_tensors(),
                pred == (|t: TensorId| self.is_input_tensor(t)),
                r@ == tensor_ids_where(t as nat, pred),
        {
            let tid = TensorId(t);
            let consumed = self.consumed_inside(tid);
            let keep = consumed && match graph.producer_id_of(tid) {
                Some(p) => !self.contains(p),
                None => true,
            };
            proof {
                lemma_ids_where_step(t as nat, pred);
            }
            if keep {
                r.push(tid);
            }
        }
        proof {
            lemma_ids_where_props(nt as nat, pred);
            assert forall|t: TensorId| self.is_input_tensor(t) implies t.0 < nt by {
                let op = choose|op: OperationId| #[trigger] self.has(op) && g.ins()[op.0 as int].contains(t);
                let j = choose|j: int| 0 <= j < self.node_seq().len() && self.node_seq()[j] == op;
                let m = choose|m: int| 0 <= m < g.ins()[op.0 as int].len() && g.ins()[op.0 as int][m] == t;
                assert(g.ins()[op.0 as int][m].0 < g.num_tensors());
            }
        }
        r
    }

    /// The tensors produced by operations of this subgraph that have no
    /// consumer or a consumer outside this subgraph, each once, in increasing
    /// id order.
    pub fn output_tensor_ids(&self) -> (r: Vec<TensorId>)
        requires
            self.wf(),
        ensures
            r@ == self.output_seq(),
            r@.no_duplicates(),
            forall|t: TensorId| r@.contains(t) <==> self.is_output_tensor(t),
            forall|k: int| 0 <= k < r.len() ==> (#[trigger] r@[k]).0 < self.graph().num_tensors(),
    {
        let graph = self.parent;
        let ghost g = self.graph();
        let ghost pred = |t: TensorId| self.is_output_tensor(t);
        let nt = graph.tensors().len();
        let mut r: Vec<TensorId> = Vec::new();
        for t in 0..nt
            invariant
                self.wf(),
                g == self.graph(),
                *graph == g,
                nt == g.num_tensors(),
                pred == (|t: TensorId| self.is_output_tensor(t)),
                r@ == tensor_ids_where(t as nat, pred),
        {
            let tid = TensorId(t);
            let produced = match graph.producer_id_of(tid) {
                Some(p) => self.contains(p),
                None => false,
            };
            let keep = produced && self.escapes(tid);
            proof {
                lemma_ids_where_step(t as nat, pred);
                assert(g.producer_is(t as int, g.prods()[t as int]));
                if produced {
                    let p = g.prods()[t as int].unwrap();
                    assert(self.has(p) && g.outs()[p.0 as int].contains(tid));
                }
                if exists|op: OperationId| #[trigger] self.has(op) && g.outs()[op.0 as int].contains(tid) {
                    let op = choose|op: OperationId| #[trigger] self.has(op) && g.outs()[op.0 as int].contains(tid);
                    let j = choose|j: int| 0 <= j < self.node_seq().len() && self.node_seq()[j] == op;
                    assert(op.0 < g.num_ops());
                    if g.prods()[t as int] is None {
                        assert(!g.outs()[op.0 as int].contains(TensorId(t)));
                    } else {
                        let p = g.prods()[t as int].unwrap();
                        let m1 = choose|m1: int| 0 <= m1 < g.outs()[p.0 as int].len() && g.outs()[p.0 as int][m1] == tid;
                        let m2 = choose|m2: int| 0 <= m2 < g.outs()[op.0 as int].len() && g.outs()[op.0 as int][m2] == tid;
                        assert(g.outs()[p.0 as int][m1] == g.outs()[op.0 as int][m2]);
                    }
                }
                assert(keep == pred(tid));
            }
            if keep {
                r.push(tid);
            }
        }
        proof {
            lemma_ids_where_props(nt as nat, pred);
            assert forall|t: TensorId| self.is_output_tensor(t) implies t.0 < nt by {
                let op = choose|op: OperationId| #[trigger] self.has(op) && g.outs()[op.0 as int].contains(t);
                let j = choose|j: int| 0 <= j < self.node_seq().len() && self.node_seq()[j] == op;
                let m = choose|m: int| 0 <= m < g.outs()[op.0 as int].len() && g.outs()[op.0 as int][m] == t;
                assert(g.outs()[op.0 as int][m].0 < g.num_tensors());
            }
        }
        r
    }

    /// `u` and `w` are operations of the subgraph joined by an edge either way.
    pub open spec fn adjacent(&self, u: OperationId, w: OperationId) -> bool {
        &&& self.has(u)
        &&& self.has(w)
        &&& (self.graph().has_edge(u.0 as int, w.0 as int) || self.graph().has_edge(w.0 as int, u.0 as int))
    }

    /// `p` is a path of adjacent operations of the subgraph.
    pub open spec fn is_upath(&self, p: Seq<OperationId>) -> bool {
        &&& p.len() >= 1
        &&& self.has(p[0])
        &&& forall|k: int| 0 <= k < p.len() - 1 ==> #[trigger] self.adjacent(p[k], p[k + 1])
    }

    /// `b` can be reached from `a` within the subgraph, ignoring edge directions.
    pub open spec fn connected(&self, a: OperationId, b: OperationId) -> bool {
        exists|p: Seq<OperationId>| #[trigger] self.is_upath(p) && p[0] == a && p.last() == b
    }

    /// Two subgraphs of one graph listing the same operations have the same
    /// connectivity.
    pub proof fn lemma_same_nodes_same_components(&self, other: &Subgraph)
        requires
            self.graph() == other.graph(),
            self.node_seq() == other.node_seq(),
        ensures
            self.num_components() == other.num_components(),
    {
        assert forall|p: Seq<OperationId>| #[trigger] self.is_upath(p) == other.is_upath(p) by {
            if self.is_upath(p) {
                assert forall|k: int| 0 <= k < p.len() - 1 implies #[trigger] other.adjacent(p[k], p[k + 1]) by {
                    assert(self.adjacent(p[k], p[k + 1]));
                }
            }
            if other.is_upath(p) {
                assert forall|k: int| 0 <= k < p.len() - 1 implies #[trigger] self.adjacent(p[k], p[k + 1]) by {
                    assert(other.adjacent(p[k], p[k + 1]));
                }
            }
        }
        assert forall|a: OperationId, b: OperationId| #[trigger] self.connected(a, b) == other.connected(a, b) by {
            if self.connected(a, b) {
                let p = choose|p: Seq<OperationId>| #[trigger] self.is_upath(p) && p[0] == a && p.last() == b;
                assert(other.is_upath(p));
            }
            if other.connected(a, b) {
                let p = choose|p: Seq<OperationId>| #[trigger] other.is_upath(p) && p[0] == a && p.last() == b;
                assert(self.is_upath(p));
            }
        }
        self.lemma_same_components_upto(other, self.node_seq().len());
    }

    proof fn lemma_same_components_upto(&self, other: &Subgraph, m: nat)
        requires
            self.node_seq() == other.node_seq(),
            forall|a: OperationId, b: OperationId| #[trigger] self.connected(a, b) == other.connected(a, b),
        ensures
            self.num_components_upto(m) == other.num_components_upto(m),
        decreases m,
    {
        if m > 0 {
            self.lemma_same_components_upto(other, (m - 1) as nat);
            let s = self.node_seq();
            if forall|j: int| 0 <= j < m - 1 ==> !#[trigger] self.connected(s[j], s[m - 1]) {
                assert forall|j: int| 0 <= j < m - 1 implies !#[trigger] other.connected(s[j], s[m - 1]) by {
                    assert(!self.connected(s[j], s[m - 1]));
                }
            }
            if forall|j: int| 0 <= j < m - 1 ==> !#[trigger] other.connected(s[j], s[m - 1]) {
                assert forall|j: int| 0 <= j < m - 1 implies !#[trigger] self.connected(s[j], s[m - 1]) by {
                    assert(!other.connected(s[j], s[m - 1]));
                }
            }
        }
    }

    /// Number of the first `m` nodes that are not connected to an earlier node.
    pub open spec fn num_components_upto(&self, m: nat) -> nat
        decreases m,
    {
        if m == 0 {
            0
        } else {
            self.num_components_upto((m - 1) as nat) + if (forall|j: int|
                0 <= j < m - 1 ==> !#[trigger] self.connected(self.node_seq()[j], self.node_seq()[m - 1])) {
                1nat
            } else {
                0nat
            }
        }
    }

    /// Number of connected components: each component is counted at its first node.
    pub open spec fn num_components(&self) -> nat {
        self.num_components_upto(self.node_seq().len())
    }

    pub proof fn lemma_connected_refl(&self, a: OperationId)
        requires
            self.has(a),
        ensures
            self.connected(a, a),
    {
        assert(self.is_upath(seq![a]));
    }

    pub proof fn lemma_connected_step(&self, a: OperationId, b: OperationId, c: OperationId)
        requires
            self.connected(a, b),
            self.adjacent(b, c),
        ensures
            self.connected(a, c),
    {
        let p = choose|p: Seq<OperationId>| #[trigger] self.is_upath(p) && p[0] == a && p.last() == b;
        let q = p.push(c);
        assert forall|k: int| 0 <= k < q.len() - 1 implies #[trigger] self.adjacent(q[k], q[k + 1]) by {
            if k < p.len() - 1 {
                assert(q[k] == p[k] && q[k + 1] == p[k + 1]);
            }
        }
        assert(self.is_upath(q));
    }

    pub proof fn lemma_connected_has(&self, a: OperationId, b: OperationId)
        requires
            self.connected(a, b),
        ensures
            self.has(a),
            self.has(b),
    {
        let p = choose|p: Seq<OperationId>| #[trigger] self.is_upath(p) && p[0] == a && p.last() == b;
        if p.len() > 1 {
            let k = p.len() - 2;
            assert(self.adjacent(p[k], p[k + 1]));
        }
    }

    pub proof fn lemma_connected_trans(&self, a: OperationId, b: OperationId, c: OperationId)
        requires
            self.connected(a, b),
            self.connected(b, c),
        ensures
            self.connected(a, c),
    {
        let q = choose|q: Seq<OperationId>| #[trigger] self.is_upath(q) && q[0] == b && q.last() == c;
        self.lemma_connected_trans_path(a, q);
    }

    proof fn lemma_connected_trans_path(&self, a: OperationId, q: Seq<OperationId>)
        requires
            self.is_upath(q),
            self.connected(a, q[0]),
        ensures
            self.connected(a, q.last()),
        decreases q.len(),
    {
        if q.len() > 1 {
            let r = q.drop_last();
            assert forall|k: int| 0 <= k < r.len() - 1 implies #[trigger] self.adjacent(r[k], r[k + 1]) by {
                assert(self.adjacent(q[k], q[k + 1]));
            }
            self.lemma_connected_trans_path(a, r);
            let k = q.len() - 2;
            assert(self.adjacent(q[k], q[k + 1]));
            self.lemma_connected_step(a, r.last(), q.last());
        }
    }

    /// A set of operations that contains `a` and is closed under adjacency
    /// contains everything connected to `a`.
    proof fn lemma_closed_contains_connected(&self, vis: Seq<bool>, p: Seq<OperationId>)
        requires
            self.wf(),
            vis.len() == self.graph().num_ops(),
            self.is_upath(p),
            vis[p[0].0 as int],
            forall|v: OperationId, w: OperationId|
                #![trigger vis[v.0 as int], self.adjacent(v, w)]
                v.0 < vis.len() && vis[v.0 as int] && self.adjacent(v, w) ==> vis[w.0 as int],
        ensures
            vis[p.last().0 as int],
        decreases p.len(),
    {
        if p.len() > 1 {
            let q = p.drop_last();
            assert forall|k: int| 0 <= k < q.len() - 1 implies #[trigger] self.adjacent(q[k], q[k + 1]) by {
                assert(self.adjacent(p[k], p[k + 1]));
            }
            self.lemma_closed_contains_connected(vis, q);
            let k = p.len() - 2;
            assert(self.adjacent(p[k], p[k + 1]));
            assert(self.has(q.last()));
            assert(q.last().0 < vis.len());
        }
    }

    /// Pushes onto `stack` every operation adjacent to `op` that is not visited.
    fn push_unvisited_neighbors(&self, op: OperationId, visited: &Vec<bool>, stack: &mut Vec<OperationId>)
        requires
            self.wf(),
            self.has(op),
            visited.len() == self.graph().num_ops(),
        ensures
            final(stack)@.len() >= old(stack)@.len(),
            forall|k: int| 0 <= k < old(stack)@.len() ==> #[trigger] final(stack)@[k] == old(stack)@[k],
            forall|k: int|
                old(stack)@.len() <= k < final(stack)@.len() ==> self.adjacent(op, #[trigger] final(stack)@[k]),
            forall|w: OperationId|
                #[trigger] self.adjacent(op, w) && !visited@[w.0 as int] ==> final(stack)@.contains(w),
    {
        let graph = self.parent;
        let ghost g = self.graph();
        let ghost s0 = stack@;
        assert(op.0 < g.num_ops());
        let outs = graph.output_ids_for(op);
        for i in 0..outs.len()
            invariant
                self.wf(),
                g == self.graph(),
                *graph == g,
                self.has(op),
                op.0 < g.num_ops(),
                visited.len() == g.num_ops(),
                outs@ == g.outs()[op.0 as int],
                stack@.len() >= s0.len(),
                forall|k: int| 0 <= k < s0.len() ==> #[trigger] stack@[k] == s0[k],
                forall|k: int| s0.len() <= k < stack@.len() ==> self.adjacent(op, #[trigger] stack@[k]),
                forall|i2: int, k2: int|
                    0 <= i2 < i && 0 <= k2 < g.cons()[outs@[i2].0 as int].len() && self.has(
                        #[trigger] g.cons()[outs@[i2].0 as int][k2],
                    ) && !visited@[g.cons()[outs@[i2].0 as int][k2].0 as int] ==> stack@.contains(
                        g.cons()[outs@[i2].0 as int][k2],
                    ),
        {
            let t = outs[i];
            assert(g.outs()[op.0 as int][i as int].0 < g.num_tensors());
            let consumers = graph.consumer_ids_for(t);
            for k in 0..consumers.len()
                invariant
                    self.wf(),
                    g == self.graph(),
                    *graph == g,
                    self.has(op),
                    op.0 < g.num_ops(),
                    visited.len() == g.num_ops(),
                    outs@ == g.outs()[op.0 as int],
                    i < outs@.len(),
                    t == outs@[i as int],
                    t.0 < g.num_tensors(),
                    consumers@ == g.cons()[t.0 as int],
                    stack@.len() >= s0.len(),
                    forall|k: int| 0 <= k < s0.len() ==> #[trigger] stack@[k] == s0[k],
                    forall|k: int| s0.len() <= k < stack@.len() ==> self.adjacent(op, #[trigger] stack@[k]),
                    forall|i2: int, k2: int|
                        0 <= i2 < i && 0 <= k2 < g.cons()[outs@[i2].0 as int].len() && self.has(
                            #[trigger] g.cons()[outs@[i2].0 as int][k2],
                        ) && !visited@[g.cons()[outs@[i2].0 as int][k2].0 as int] ==> stack@.contains(
                            g.cons()[outs@[i2].0 as int][k2],
                        ),
                    forall|k2: int|
                        0 <= k2 < k && self.has(#[trigger] g.cons()[t.0 as int][k2]) && !visited@[g.cons()[t.0 as int][k2].0 as int]
                            ==> stack@.contains(g.cons()[t.0 as int][k2]),
            {
                proof {
                    crate::graph::lemma_consumer_list_bound(g.ins(), t, k as int);
                }
                let c = consumers[k];
                let ghost st1 = stack@;
                if self.contains(c) && !visited[c.0] {
                    assert(g.cons()[g.outs()[op.0 as int][i as int].0 as int][k as int].0 == c.0);
                    assert(g.has_edge(op.0 as int, c.0 as int));
                    stack.push(c);
                    proof {
                        lemma_push_contains(st1, c);
                    }
                }
                assert forall|x: OperationId| st1.contains(x) implies stack@.contains(x) by {
                    let q = choose|q: int| 0 <= q < st1.len() && st1[q] == x;
                    assert(stack@[q] == st1[q]);
                }
            }
        }
        let ins = graph.input_ids_for(op);
        let ghost s1 = stack@;
        for i in 0..ins.len()
            invariant
                self.wf(),
                g == self.graph(),
                *graph == g,
                self.has(op),
                op.0 < g.num_ops(),
                visited.len() == g.num_ops(),
                ins@ == g.ins()[op.0 as int],
                stack@.len() >= s1.len(),
                s1.len() >= s0.len(),
                forall|k: int| 0 <= k < s1.len() ==> #[trigger] stack@[k] == s1[k],
                forall|k: int| 0 <= k < s0.len() ==> #[trigger] s1[k] == s0[k],
                forall|k: int| s0.len() <= k < stack@.len() ==> self.adjacent(op, #[trigger] stack@[k]),
                forall|x: OperationId| s1.contains(x) ==> stack@.contains(x),
                forall|i2: int|
                    0 <= i2 < i && #[trigger] g.producer_spec(ins@[i2]) is Some && self.has(g.producer_spec(ins@[i2]).unwrap())
                        && !visited@[g.producer_spec(ins@[i2]).unwrap().0 as int] ==> stack@.contains(
                        g.producer_spec(ins@[i2]).unwrap(),
                    ),
        {
            let t = ins[i];
            let ghost st1 = stack@;
            match graph.producer_id_of(t) {
                Some(p) => {
                    if self.contains(p) && !visited[p.0] {
                        proof {
                            assert(g.producer_is(t.0 as int, g.prods()[t.0 as int]));
                            let m = choose|m: int| 0 <= m < g.outs()[p.0 as int].len() && g.outs()[p.0 as int][m] == TensorId(t.0);
                            assert(g.ins()[op.0 as int][i as int] == t);
                            crate::graph::lemma_edge_from_tensor(&g, p.0 as int, m, op.0 as int);
                        }
                        stack.push(p);
                        proof {
                            lemma_push_contains(st1, p);
                        }
                    }
                },
                None => {},
            }
            assert forall|x: OperationId| st1.contains(x) implies stack@.contains(x) by {
                let q = choose|q: int| 0 <= q < st1.len() && st1[q] == x;
                assert(stack@[q] == st1[q]);
            }
        }
        proof {
            assert forall|w: OperationId| #[trigger] self.adjacent(op, w) && !visited@[w.0 as int] implies stack@.contains(w) by {
                if g.has_edge(op.0 as int, w.0 as int) {
                    let i = crate::graph::lemma_tensor_from_edge(&g, op.0 as int, w.0 as int);
                    let t = g.outs()[op.0 as int][i];
                    assert(g.cons()[t.0 as int] == crate::graph::consumer_list(g.ins(), TensorId(t.0)));
                    crate::graph::lemma_consumer_list_contains(g.ins(), t, w.0 as int);
                    let k = choose|k: int|
                        0 <= k < crate::graph::consumer_list(g.ins(), t).len()
                            && #[trigger] crate::graph::consumer_list(g.ins(), t)[k].0 == w.0;
                    assert(g.cons()[outs@[i].0 as int][k] == w);
                } else {
                    let i = crate::graph::lemma_tensor_from_edge(&g, w.0 as int, op.0 as int);
                    let t = g.outs()[w.0 as int][i];
                    let m = choose|m: int| 0 <= m < ins@.len() && ins@[m] == t;
                    assert(g.producer_is(t.0 as int, g.prods()[t.0 as int]));
                    if g.prods()[t.0 as int] is None {
                        assert(!g.outs()[w.0 as int].contains(TensorId(t.0)));
                    } else {
                        let pp = g.prods()[t.0 as int].unwrap();
                        let m2 = choose|m2: int| 0 <= m2 < g.outs()[pp.0 as int].len() && g.outs()[pp.0 as int][m2] == TensorId(t.0);
                        assert(g.outs()[w.0 as int][i] == g.outs()[pp.0 as int][m2]);
                    }
                    assert(g.producer_spec(ins@[m]) == Some(w));
                }
            }
        }
    }

    /// The number of connected components of the subgraph.
    pub fn components(&self) -> (r: usize)
        requires
            self.wf(),
        ensures
            r == self.num_components(),
    {
        let graph = self.parent;
        let ghost g = self.graph();
        let ghost a = self.node_seq();
        let n = graph.num_operations();
        let mut visited: Vec<bool> = Vec::new();
        for v in 0..n
            invariant
                visited.len() == v,
                forall|k: int| 0 <= k < v ==> !visited@[k],
        {
            visited.push(false);
        }
        let mut count: usize = 0;
        for i in 0..self.nodes.len()
            invariant
                self.wf(),
                g == self.graph(),
                *graph == g,
                a == self.node_seq(),
                n == g.num_ops(),
                visited.len() == n,
                count == self.num_components_upto(i as nat),
                count <= i,
                forall|v: int|
                    0 <= v < n ==> (#[trigger] visited@[v] <==> exists|j: int|
                        0 <= j < i && self.connected(a[j], OperationId(v as usize))),
        {
            let start = self.nodes[i];
            assert(start.0 < n);
            if visited[start.0] {
                assert(!(forall|j: int| 0 <= j < i ==> !#[trigger] self.connected(a[j], a[i as int])));
                proof {
                    let j0 = choose|j: int| 0 <= j < i && self.connected(a[j], OperationId(start.0 as usize));
                    assert(OperationId(start.0 as usize) == start);
                    assert forall|v: int|
                        0 <= v < n implies (#[trigger] visited@[v] <==> exists|j: int|
                            0 <= j < i + 1 && self.connected(a[j], OperationId(v as usize))) by {
                        if exists|j: int| 0 <= j < i + 1 && self.connected(a[j], OperationId(v as usize)) {
                            let j = choose|j: int| 0 <= j < i + 1 && self.connected(a[j], OperationId(v as usize));
                            if j == i {
                                self.lemma_connected_trans(a[j0], start, OperationId(v as usize));
                            }
                        }
                    }
                }
            } else {
            assert(forall|j: int| 0 <= j < i ==> !#[trigger] self.connected(a[j], a[i as int]));
            count += 1;
            let ghost v0 = visited@;
            let mut stack: Vec<OperationId> = Vec::new();
            stack.push(start);
            assert(stack@[0] == start);
            proof {
                self.lemma_connected_refl(start);
            }
            while stack.len() > 0
                invariant
                    self.wf(),
                    g == self.graph(),
                    *graph == g,
                    n == g.num_ops(),
                    self.has(start),
                    start.0 < n,
                    !v0[start.0 as int],
                    v0.len() == n,
                    visited.len() == n,
                    forall|v: int| 0 <= v < n && v0[v] ==> visited@[v],
                    forall|v: int|
                        0 <= v < n && visited@[v] && !v0[v] ==> self.connected(start, OperationId(v as usize)),
                    forall|k: int|
                        0 <= k < stack.len() ==> (#[trigger] stack@[k]).0 < n && self.connected(start, stack@[k]),
                    forall|v: OperationId, w: OperationId|
                        #![trigger visited@[v.0 as int], self.adjacent(v, w)]
                        v.0 < n && visited@[v.0 as int] && !v0[v.0 as int] && self.adjacent(v, w) ==> visited@[w.0 as int]
                            || stack@.contains(w),
                    visited@[start.0 as int] || stack@.contains(start),
                decreases n - count_true(visited@), stack.len(),
            {
                let ghost st0 = stack@;
                let op = stack.pop().unwrap();
                assert(stack@ =~= st0.drop_last());
                assert(op == st0[st0.len() - 1]);
                assert(self.connected(start, op));
                proof {
                    self.lemma_connected_has(start, op);
                }
                if visited[op.0] {
                    proof {
                        assert forall|x: OperationId| st0.contains(x) && x != op implies stack@.contains(x) by {
                            let q = choose|q: int| 0 <= q < st0.len() && st0[q] == x;
                            assert(q < st0.len() - 1);
                            assert(stack@[q] == x);
                        }
                        assert forall|v: OperationId, w: OperationId|
                            #![trigger visited@[v.0 as int], self.adjacent(v, w)]
                            v.0 < n && visited@[v.0 as int] && !v0[v.0 as int] && self.adjacent(v, w) implies visited@[w.0 as int]
                                || stack@.contains(w) by {
                            if !visited@[w.0 as int] {
                                assert(st0.contains(w));
                            }
                        }
                    }
                    continue;
                }
                let ghost vis0 = visited@;
                visited.set(op.0, true);
                proof {
                    lemma_count_true_set(vis0, op.0 as int);
                }
                let ghost st1 = stack@;
                self.push_unvisited_neighbors(op, &visited, &mut stack);
                proof {
                    assert forall|x: OperationId| st1.contains(x) implies stack@.contains(x) by {
                        let q = choose|q: int| 0 <= q < st1.len() && st1[q] == x;
                        assert(stack@[q] == st1[q]);
                    }
                    assert forall|x: OperationId| st0.contains(x) && x != op implies stack@.contains(x) by {
                        let q = choose|q: int| 0 <= q < st0.len() && st0[q] == x;
                        assert(q < st0.len() - 1);
                        assert(st1[q] == x);
                        assert(st1.contains(x));
                    }
                    assert forall|k: int| 0 <= k < stack.len() implies (#[trigger] stack@[k]).0 < n
                        && self.connected(start, stack@[k]) by {
                        if k < st1.len() {
                            assert(stack@[k] == st1[k]);
                            assert(st0[k] == st1[k]);
                        } else {
                            self.lemma_connected_step(start, op, stack@[k]);
                        }
                    }
                    assert forall|v: OperationId, w: OperationId|
                        #![trigger visited@[v.0 as int], self.adjacent(v, w)]
                        v.0 < n && visited@[v.0 as int] && !v0[v.0 as int] && self.adjacent(v, w) implies visited@[w.0 as int]
                            || stack@.contains(w) by {
                        if v != op {
                            assert(vis0[v.0 as int]);
                            if !vis0[w.0 as int] {
                                assert(st0.contains(w));
                            }
                        }
                    }
                }
            }
            proof {
                assert forall|v: OperationId, w: OperationId|
                    #![trigger visited@[v.0 as int], self.adjacent(v, w)]
                    v.0 < visited@.len() && visited@[v.0 as int] && self.adjacent(v, w) implies visited@[w.0 as int] by {
                    if v0[v.0 as int] {
                        let j = choose|j: int| 0 <= j < i && self.connected(a[j], OperationId(v.0));
                        assert(OperationId(v.0) == v);
                        self.lemma_connected_step(a[j], v, w);
                        assert(OperationId(w.0) == w);
                        assert(self.has(w));
                        assert(w.0 < n);
                        assert(v0[w.0 as int]);
                    }
                }
                assert forall|v: int|
                    0 <= v < n implies (#[trigger] visited@[v] <==> exists|j: int|
                        0 <= j < i + 1 && self.connected(a[j], OperationId(v as usize))) by {
                    if visited@[v] {
                        if !v0[v] {
                            assert(self.connected(a[i as int], OperationId(v as usize)));
                        } else {
                            let j = choose|j: int| 0 <= j < i && self.connected(a[j], OperationId(v as usize));
                        }
                    }
                    if exists|j: int| 0 <= j < i + 1 && self.connected(a[j], OperationId(v as usize)) {
                        let j = choose|j: int| 0 <= j < i + 1 && self.connected(a[j], OperationId(v as usize));
                        if j == i {
                            let p = choose|p: Seq<OperationId>| #[trigger] self.is_upath(p) && p[0] == start
                                && p.last() == OperationId(v as usize);
                            self.lemma_closed_contains_connected(visited@, p);
                        } else {
                            assert(v0[v]);
                        }
                    }
                }
            }
            }
        }
        count
    }

    /// Adds an operation that is not yet in the subgraph.
    pub fn insert(&mut self, operation_id: OperationId)
        requires
            old(self).wf(),
            operation_id.0 < old(self).graph().num_ops(),
            !old(self).has(operation_id),
        ensures
            final(self).wf(),
            final(self).graph() == old(self).graph(),
            forall|x: OperationId| final(self).has(x) <==> (old(self).has(x) || x == operation_id),
            final(self).node_seq().len() == old(self).node_seq().len() + 1,
    {
        let ghost g = self.graph();
        let ghost a = self.node_seq();
        let topo = self.parent.topological_sort();
        let pos = topo.position_at(operation_id);
        let idx = self.lower_bound(pos);
        self.nodes.insert(idx, operation_id);
        proof {
            let s = self.node_seq();
            assert(s == a.insert(idx as int, operation_id));
            assert forall|k: int| 0 <= k < a.len() implies g.pos(#[trigger] a[k]) != pos by {
                lemma_pos_injective(&g, a[k], operation_id);
            }
            assert forall|i: int, j: int| 0 <= i < j < s.len() implies g.pos(s[i]) < g.pos(s[j]) by {
                if j < idx {
                    assert(s[i] == a[i] && s[j] == a[j]);
                } else if j == idx {
                    assert(s[i] == a[i]);
                } else if i == idx {
                    assert(s[j] == a[j - 1]);
                } else if i < idx {
                    assert(s[i] == a[i] && s[j] == a[j - 1]);
                } else {
                    assert(s[i] == a[i - 1] && s[j] == a[j - 1]);
                }
            }
            assert forall|k: int| 0 <= k < s.len() implies (#[trigger] s[k]).0 < g.num_ops() by {
                if k < idx {
                    assert(s[k] == a[k]);
                } else if k > idx {
                    assert(s[k] == a[k - 1]);
                }
            }
            assert forall|x: OperationId| self.has(x) <==> (a.contains(x) || x == operation_id) by {
                if self.has(x) {
                    let k = choose|k: int| 0 <= k < s.len() && s[k] == x;
                    if k < idx {
                        assert(a[k] == x);
                    } else if k > idx {
                        assert(a[k - 1] == x);
                    }
                }
                if a.contains(x) {
                    let k = choose|k: int| 0 <= k < a.len() && a[k] == x;
                    if k < idx {
                        assert(s[k] == x);
                    } else {
                        assert(s[k + 1] == x);
                    }
                }
                if x == operation_id {
                    assert(s[idx as int] == x);
                }
            }
        }
    }
}

proof fn lemma_push_contains<A>(s: Seq<A>, v: A)
    ensures
        forall|x: A| #[trigger] s.push(v).contains(x) <==> (s.contains(x) || x == v),
{
    assert forall|x: A| #[trigger] s.push(v).contains(x) <==> (s.contains(x) || x == v) by {
        if s.push(v).contains(x) {
            let k = choose|k: int| 0 <= k < s.push(v).len() && s.push(v)[k] == x;
            if k < s.len() {
                assert(s[k] == x);
            }
        }
        if s.contains(x) {
            let k = choose|k: int| 0 <= k < s.len() && s[k] == x;
            assert(s.push(v)[k] == x);
        }
        if x == v {
            assert(s.push(v)[s.len() as int] == x);
        }
    }
}

/// The tensor ids below `nt` that satisfy `pred`, in increasing order.
pub open spec fn tensor_ids_where(nt: nat, pred: spec_fn(TensorId) -> bool) -> Seq<TensorId> {
    Seq::new(nt, |i: int| TensorId(i as usize)).filter(pred)
}

proof fn lemma_ids_where_step(t: nat, pred: spec_fn(TensorId) -> bool)
    requires
        t < usize::MAX,
    ensures
        tensor_ids_where(t + 1, pred) == if pred(TensorId(t as usize)) {
            tensor_ids_where(t, pred).push(TensorId(t as usize))
        } else {
            tensor_ids_where(t, pred)
        },
{
    reveal(Seq::filter);
    let s = Seq::new(t + 1, |i: int| TensorId(i as usize));
    assert(s.drop_last() =~= Seq::new(t, |i: int| TensorId(i as usize)));
    assert(s.last() == TensorId(t as usize));
}

pub proof fn lemma_ids_where_props(nt: nat, pred: spec_fn(TensorId) -> bool)
    requires
        nt <= usize::MAX,
    ensures
        forall|x: TensorId| tensor_ids_where(nt, pred).contains(x) <==> (x.0 < nt && pred(x)),
        forall|i: int, j: int|
            0 <= i < j < tensor_ids_where(nt, pred).len() ==> tensor_ids_where(nt, pred)[i].0 < tensor_ids_where(nt, pred)[j].0,
        forall|i: int| 0 <= i < tensor_ids_where(nt, pred).len() ==> (#[trigger] tensor_ids_where(nt, pred)[i]).0 < nt,
        tensor_ids_where(nt, pred).no_duplicates(),
    decreases nt,
{
    let s = tensor_ids_where(nt, pred);
    if nt > 0 {
        lemma_ids_where_props((nt - 1) as nat, pred);
        lemma_ids_where_step((nt - 1) as nat, pred);
        let s0 = tensor_ids_where((nt - 1) as nat, pred);
        assert forall|x: TensorId| s.contains(x) <==> (x.0 < nt && pred(x)) by {
            if s.contains(x) {
                let k = choose|k: int| 0 <= k < s.len() && s[k] == x;
                if k < s0.len() {
                    assert(s0[k] == x);
                    assert(s0.contains(x));
                }
            }
            if x.0 < nt && pred(x) {
                if x.0 < nt - 1 {
                    assert(s0.contains(x));
                    let k = choose|k: int| 0 <= k < s0.len() && s0[k] == x;
                    assert(s[k] == x);
                } else {
                    assert(x == TensorId((nt - 1) as usize));
                    assert(s[s.len() - 1] == x);
                }
            }
        }
        assert forall|i: int, j: int| 0 <= i < j < s.len() implies s[i].0 < s[j].0 by {
            if j < s0.len() {
                assert(s[i] == s0[i] && s[j] == s0[j]);
            } else {
                assert(s[i] == s0[i]);
            }
        }
    } else {
        reveal(Seq::filter);
        assert(s.len() == 0);
    }
    assert forall|i: int, j: int| 0 <= i < s.len() && 0 <= j < s.len() && i != j implies s[i] != s[j] by {
        if i < j {
            assert(s[i].0 < s[j].0);
        } else {
            assert(s[j].0 < s[i].0);
        }
    }
}

impl<'a> Clone for Subgraph<'a> {
    fn clone(&self) -> (r: Self)
        ensures
            r.graph() == self.graph(),
            r.node_seq() == self.node_seq(),
    {
        let mut nodes: Vec<OperationId> = Vec::new();
        for i in 0..self.nodes.len()
            invariant
                nodes@ == self.nodes@.take(i as int),
        {
            nodes.push(self.nodes[i]);
            assert(self.nodes@.take(i + 1) =~= self.nodes@.take(i as int).push(self.nodes@[i as int]));
        }
        assert(self.nodes@.take(self.nodes.len() as int) =~= self.nodes@);
        Subgraph { parent: self.parent, nodes }
    }
}

impl<'a> Subgraph<'a> {
    /// Whether both subgraphs list the same operations.
    pub fn same_nodes(&self, other: &Subgraph) -> (r: bool)
        ensures
            r == (self.node_seq() == other.node_seq()),
    {
        if self.nodes.len() != other.nodes.len() {
            return false;
        }
        for i in 0..self.nodes.len()
            invariant
                self.nodes.len() == other.nodes.len(),
                forall|k: int| 0 <= k < i ==> self.nodes@[k] == other.nodes@[k],
        {
            if self.nodes[i] != other.nodes[i] {
                return false;
            }
        }
        assert(self.nodes@ =~= other.nodes@);
        true
    }
}

/// Keeping the elements of `s` on which `pred` holds keeps them all when it
/// holds on every one, and none when it holds on none.
proof fn lemma_filter_all_or_none(s: Seq<OperationId>, pred: spec_fn(OperationId) -> bool, keep: bool)
    requires
        forall|i: int| 0 <= i < s.len() ==> pred(#[trigger] s[i]) == keep,
    ensures
        keep ==> s.filter(pred) == s,
        !keep ==> s.filter(pred) == Seq::<OperationId>::empty(),
    decreases s.len(),
{
    reveal(Seq::filter);
    if s.len() > 0 {
        let rest = s.drop_last();
        assert forall|i: int| 0 <= i < rest.len() implies pred(#[trigger] rest[i]) == keep by {
            assert(rest[i] == s[i]);
        }
        lemma_filter_all_or_none(rest, pred, keep);
        assert(pred(s[s.len() - 1]) == keep);
        if keep {
            assert(rest.push(s.last()) =~= s);
        }
    }
}

/// Subtracting a subgraph from itself leaves no operation.
pub proof fn lemma_subtract_self(a: Subgraph)
    ensures
        a.node_seq().filter(|x: OperationId| !a.has(x)) == Seq::<OperationId>::empty(),
{
    let s = a.node_seq();
    let pred = |x: OperationId| !a.has(x);
    assert forall|i: int| 0 <= i < s.len() implies pred(#[trigger] s[i]) == false by {
        assert(s.contains(s[i]));
    }
    lemma_filter_all_or_none(s, pred, false);
}

/// Subtracting a subgraph that shares no operation with `a`, the empty one
/// among them, leaves `a` as it is.
pub proof fn lemma_subtract_disjoint(a: Subgraph, b: Subgraph)
    requires
        forall|x: OperationId| !(a.has(x) && b.has(x)),
    ensures
        a.node_seq().filter(|x: OperationId| !b.has(x)) == a.node_seq(),
{
    let s = a.node_seq();
    let pred = |x: OperationId| !b.has(x);
    assert forall|i: int| 0 <= i < s.len() implies pred(#[trigger] s[i]) == true by {
        assert(s.contains(s[i]));
    }
    lemma_filter_all_or_none(s, pred, true);
}

/// A subgraph scheduled at one tile size, with the outputs it keeps in fast memory.
pub struct Partition<'a> {
    pub subgraph: Subgraph<'a>,
    pub retained_outputs: Vec<TensorId>,
    pub tile_size: (i64, i64, i64),
}

/// Number of `true` entries.
pub open spec fn count_true(s: Seq<bool>) -> nat
    decreases s.len(),
{
    if s.len() == 0 {
        0
    } else {
        count_true(s.drop_last()) + if s.last() {
            1nat
        } else {
            0nat
        }
    }
}

pub(crate) proof fn lemma_count_true_set(s: Seq<bool>, i: int)
    requires
        0 <= i < s.len(),
        !s[i],
    ensures
        count_true(s.update(i, true)) == count_true(s) + 1,
        count_true(s) < s.len(),
    decreases s.len(),
{
    lemma_count_true_le(s);
    let u = s.update(i, true);
    if i < s.len() - 1 {
        assert(u.drop_last() =~= s.drop_last().update(i, true));
        lemma_count_true_set(s.drop_last(), i);
    } else {
        assert(u.drop_last() =~= s.drop_last());
        lemma_count_true_le(s.drop_last());
    }
}

pub(crate) proof fn lemma_count_true_le(s: Seq<bool>)
    ensures
        count_true(s) <= s.len(),
    decreases s.len(),
{
    if s.len() > 0 {
        lemma_count_true_le(s.drop_last());
    }
}

/// Whether `t` occurs in `v`.
pub fn contains_tensor(v: &Vec<TensorId>, t: TensorId) -> (r: bool)
    ensures
        r == v@.contains(t),
{
    for i in 0..v.len()
        invariant
            forall|k: int| 0 <= k < i ==> v@[k] != t,
    {
        if v[i] == t {
            return true;
        }
    }
    false
}

/// An element of a filtered sequence comes from the sequence.
proof fn lemma_filter_subseq(s: Seq<OperationId>, pred: spec_fn(OperationId) -> bool, k: int)
    requires
        0 <= k < s.filter(pred).len(),
    ensures
        s.contains(s.filter(pred)[k]),
    decreases s.len(),
{
    reveal(Seq::filter);
    let f = s.filter(pred);
    let f0 = s.drop_last().filter(pred);
    if k < f0.len() {
        lemma_filter_subseq(s.drop_last(), pred, k);
        assert(f[k] == f0[k]);
        let j = choose|j: int| 0 <= j < s.drop_last().len() && s.drop_last()[j] == f0[k];
        assert(s[j] == f0[k]);
    } else {
        assert(f[k] == s.last());
        assert(s[s.len() - 1] == s.last());
    }
}

/// Filtering keeps a sequence sorted strictly by position.
proof fn lemma_filter_sorted(g: ComputationGraph, s: Seq<OperationId>, pred: spec_fn(OperationId) -> bool)
    requires
        forall|i: int, j: int| 0 <= i < j < s.len() ==> g.pos(s[i]) < g.pos(s[j]),
        forall|i: int| 0 <= i < s.len() ==> (#[trigger] s[i]).0 < g.num_ops(),
    ensures
        forall|i: int, j: int|
            0 <= i < j < s.filter(pred).len() ==> g.pos(s.filter(pred)[i]) < g.pos(s.filter(pred)[j]),
        forall|i: int| 0 <= i < s.filter(pred).len() ==> (#[trigger] s.filter(pred)[i]).0 < g.num_ops(),
    decreases s.len(),
{
    reveal(Seq::filter);
    if s.len() > 0 {
        let s0 = s.drop_last();
        lemma_filter_sorted(g, s0, pred);
        let f0 = s0.filter(pred);
        assert forall|k: int| 0 <= k < f0.len() implies g.pos(f0[k]) < g.pos(s.last()) by {
            lemma_filter_subseq(s0, pred, k);
            let j = choose|j: int| 0 <= j < s0.len() && s0[j] == f0[k];
            assert(s[j] == s0[j]);
        }
    }
}

/// Two sequences sorted strictly by position with the same elements are equal.
pub(crate) proof fn lemma_sorted_unique_by_pos(g: ComputationGraph, a: Seq<OperationId>, b: Seq<OperationId>)
    requires
        g.wf(),
        forall|i: int| 0 <= i < a.len() ==> (#[trigger] a[i]).0 < g.num_ops(),
        forall|i: int| 0 <= i < b.len() ==> (#[trigger] b[i]).0 < g.num_ops(),
        forall|i: int, j: int| 0 <= i < j < a.len() ==> g.pos(a[i]) < g.pos(a[j]),
        forall|i: int, j: int| 0 <= i < j < b.len() ==> g.pos(b[i]) < g.pos(b[j]),
        forall|i: int| 0 <= i < a.len() ==> b.contains(#[trigger] a[i]),
        forall|j: int| 0 <= j < b.len() ==> a.contains(#[trigger] b[j]),
    ensures
        a == b,
    decreases a.len() + b.len(),
{
    if a.len() > 0 && b.len() > 0 {
        let la = a.last();
        let lb = b.last();
        assert(b.contains(a[a.len() - 1]));
        assert(a.contains(b[b.len() - 1]));
        let ja = choose|j: int| 0 <= j < b.len() && b[j] == la;
        let ib = choose|i: int| 0 <= i < a.len() && a[i] == lb;
        lemma_pos_injective(&g, la, lb);
        if ja < b.len() - 1 {
            lemma_pos_injective(&g, a[ib], a[a.len() - 1]);
        }
        if ib < a.len() - 1 {
            lemma_pos_injective(&g, b[ja], b[b.len() - 1]);
        }
        assert(la == lb);
        let a2 = a.drop_last();
        let b2 = b.drop_last();
        assert forall|i: int| 0 <= i < a2.len() implies b2.contains(#[trigger] a2[i]) by {
            assert(a2[i] == a[i]);
            assert(b.contains(a[i]));
            let j = choose|j: int| 0 <= j < b.len() && b[j] == a[i];
            if j == b.len() - 1 {
                lemma_pos_injective(&g, a[i], a[a.len() - 1]);
            }
            assert(b2[j] == b[j]);
        }
        assert forall|j: int| 0 <= j < b2.len() implies a2.contains(#[trigger] b2[j]) by {
            assert(b2[j] == b[j]);
            assert(a.contains(b[j]));
            let i = choose|i: int| 0 <= i < a.len() && a[i] == b[j];
            if i == a.len() - 1 {
                lemma_pos_injective(&g, b[j], b[b.len() - 1]);
            }
            assert(a2[i] == a[i]);
        }
        lemma_sorted_unique_by_pos(g, a2, b2);
        assert(a =~= a2.push(la));
        assert(b =~= b2.push(lb));
    } else if a.len() > 0 {
        assert(b.contains(a[0]));
    } else if b.len() > 0 {
        assert(a.contains(b[0]));
    }
}

} // verus!
