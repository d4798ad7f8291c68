use vstd::prelude::*;

use crate::input_format::InputFormat;
pub use crate::subgraph::{Partition, Subgraph};

verus! {

#[derive(Clone, Copy, Debug, PartialEq, Eq, Structural)]
pub enum OperationType {
    MatMul,
    Pointwise,
}

#[derive(Clone, Copy, Debug, PartialEq, Eq, Structural, Hash, PartialOrd, Ord)]
pub struct TensorId(pub usize);

#[derive(Clone, Copy, Debug, PartialEq, Eq, Structural)]
pub struct Tensor {
    pub id: TensorId,
    pub width: i64,
    pub height: i64,
}

impl Tensor {
    pub open spec fn spec_size(&self) -> int {
        self.width * self.height
    }

    /// Number of elements of the tensor.
    pub fn size(&self) -> (r: i64)
        requires
            i64::MIN <= self.width * self.height <= i64::MAX,
        ensures
            r == self.spec_size(),
    {
        self.width * self.height
    }
}

#[derive(Clone, Copy, Debug, PartialEq, Eq, Structural, Hash, PartialOrd, Ord)]
pub struct OperationId(pub usize);

#[derive(Clone, Copy, Debug, PartialEq, Eq, Structural)]
pub struct Operation {
    pub kind: OperationType,
    pub base_cost: i64,
}

// ---------------------------------------------------------------------------
// Mathematical model of a graph's adjacency.
// ---------------------------------------------------------------------------

/// The contents of a vector of vectors.
pub open spec fn nested<T>(v: Seq<Vec<T>>) -> Seq<Seq<T>> {
    v.map_values(|x: Vec<T>| x@)
}

/// Every tensor id listed is below `bound`.
pub open spec fn ids_below(lists: Seq<Seq<TensorId>>, bound: nat) -> bool {
    forall|o: int, i: int|
        0 <= o < lists.len() && 0 <= i < lists[o].len() ==> #[trigger] lists[o][i].0 < bound
}

/// No tensor is listed twice among all the operations' outputs.
pub open spec fn has_unique_producers(outs: Seq<Seq<TensorId>>) -> bool {
    forall|o1: int, i1: int, o2: int, i2: int|
        0 <= o1 < outs.len() && 0 <= i1 < outs[o1].len() && 0 <= o2 < outs.len() && 0 <= i2
            < outs[o2].len() && #[trigger] outs[o1][i1] == #[trigger] outs[o2][i2] ==> o1 == o2
            && i1 == i2
}

/// Number of occurrences of `t` in `s`.
pub open spec fn count_tensor(s: Seq<TensorId>, t: TensorId) -> nat
    decreases s.len(),
{
    if s.len() == 0 {
        0
    } else {
        count_tensor(s.drop_last(), t) + if s.last() == t {
            1nat
        } else {
            0nat
        }
    }
}

/// The consumers of `t`: each operation, in increasing order, as many times as
/// `t` occurs among its inputs.
pub open spec fn consumer_list(ins: Seq<Seq<TensorId>>, t: TensorId) -> Seq<OperationId>
    decreases ins.len(),
{
    if ins.len() == 0 {
        Seq::empty()
    } else {
        consumer_list(ins.drop_last(), t) + Seq::new(
            count_tensor(ins.last(), t),
            |_i: int| OperationId((ins.len() - 1) as usize),
        )
    }
}

/// There is an edge from `a` to `b`: some output of `a` is consumed by `b`.
pub open spec fn edge(outs: Seq<Seq<TensorId>>, cons: Seq<Seq<OperationId>>, a: int, b: int) -> bool {
    exists|i: int, k: int|
        0 <= a < outs.len() && 0 <= i < outs[a].len() && 0 <= outs[a][i].0 < cons.len() && 0 <= k
            < cons[outs[a][i].0 as int].len() && #[trigger] cons[outs[a][i].0 as int][k].0 == b
}

/// `p` is a path along edges.
pub open spec fn is_path(outs: Seq<Seq<TensorId>>, cons: Seq<Seq<OperationId>>, p: Seq<int>) -> bool {
    &&& p.len() >= 1
    &&& forall|j: int| 0 <= j < p.len() - 1 ==> #[trigger] edge(outs, cons, p[j], p[j + 1])
}

/// `b` can be reached from `a` along zero or more edges.
pub open spec fn reaches(outs: Seq<Seq<TensorId>>, cons: Seq<Seq<OperationId>>, a: int, b: int) -> bool {
    exists|p: Seq<int>| #[trigger] is_path(outs, cons, p) && p[0] == a && p.last() == b
}

/// No path of one or more edges leads back to where it started.
pub open spec fn acyclic(outs: Seq<Seq<TensorId>>, cons: Seq<Seq<OperationId>>) -> bool {
    forall|p: Seq<int>| #[trigger] is_path(outs, cons, p) && p.len() >= 2 ==> p[0] != p.last()
}

pub proof fn lemma_count_take(s: Seq<TensorId>, t: TensorId, i: int)
    requires
        0 <= i < s.len(),
    ensures
        count_tensor(s.take(i + 1), t) == count_tensor(s.take(i), t) + if s[i] == t {
            1nat
        } else {
            0nat
        },
{
    assert(s.take(i + 1).drop_last() =~= s.take(i));
}

pub proof fn lemma_count_contains(s: Seq<TensorId>, t: TensorId)
    ensures
        count_tensor(s, t) > 0 <==> s.contains(t),
    decreases s.len(),
{
    if s.len() > 0 {
        lemma_count_contains(s.drop_last(), t);
        if s.drop_last().contains(t) {
            let j = choose|j: int| 0 <= j < s.drop_last().len() && s.drop_last()[j] == t;
            assert(s[j] == t);
        }
        if s.contains(t) {
            let j = choose|j: int| 0 <= j < s.len() && s[j] == t;
            if j < s.len() - 1 {
                assert(s.drop_last()[j] == t);
            }
        }
    }
}

pub proof fn lemma_consumer_list_contains(ins: Seq<Seq<TensorId>>, t: TensorId, o: int)
    requires
        ins.len() <= usize::MAX,
    ensures
        (exists|k: int|
            0 <= k < consumer_list(ins, t).len() && #[trigger] consumer_list(ins, t)[k].0 == o)
            <==> (0 <= o < ins.len() && ins[o].contains(t)),
    decreases ins.len(),
{
    if ins.len() > 0 {
        let pre = ins.drop_last();
        let l = consumer_list(ins, t);
        let lp = consumer_list(pre, t);
        let c = count_tensor(ins.last(), t);
        lemma_consumer_list_contains(pre, t, o);
        lemma_count_contains(ins.last(), t);
        assert(l.len() == lp.len() + c);
        if exists|k: int| 0 <= k < l.len() && #[trigger] l[k].0 == o {
            let k = choose|k: int| 0 <= k < l.len() && #[trigger] l[k].0 == o;
            if k < lp.len() {
                assert(l[k] == lp[k]);
                assert(pre[o] == ins[o]);
            } else {
                assert(l[k] == OperationId((ins.len() - 1) as usize));
                assert(o == ins.len() - 1);
                assert(ins.last() == ins[o]);
            }
        }
        if 0 <= o < ins.len() && ins[o].contains(t) {
            if o < ins.len() - 1 {
                assert(pre[o] == ins[o]);
                let k = choose|k: int| 0 <= k < lp.len() && #[trigger] lp[k].0 == o;
                assert(l[k] == lp[k]);
            } else {
                assert(ins.last() == ins[o]);
                assert(c > 0);
                assert(l[lp.len() as int] == OperationId((ins.len() - 1) as usize));
                assert(l[lp.len() as int].0 == o);
            }
        }
    }
}

pub proof fn lemma_consumer_list_bound(ins: Seq<Seq<TensorId>>, t: TensorId, k: int)
    requires
        0 <= k < consumer_list(ins, t).len(),
        ins.len() <= usize::MAX,
    ensures
        0 <= consumer_list(ins, t)[k].0 < ins.len(),
    decreases ins.len(),
{
    let pre = ins.drop_last();
    let lp = consumer_list(pre, t);
    if k < lp.len() {
        lemma_consumer_list_bound(pre, t, k);
    }
}

} // verus!

verus! {

pub proof fn lemma_path_push(
    outs: Seq<Seq<TensorId>>,
    cons: Seq<Seq<OperationId>>,
    p: Seq<int>,
    x: int,
)
    requires
        is_path(outs, cons, p),
        edge(outs, cons, p.last(), x),
    ensures
        is_path(outs, cons, p.push(x)),
        p.push(x)[0] == p[0],
        p.push(x).last() == x,
{
    let q = p.push(x);
    assert forall|j: int| 0 <= j < q.len() - 1 implies #[trigger] edge(outs, cons, q[j], q[j + 1]) by {
        if j < p.len() - 1 {
            assert(q[j] == p[j] && q[j + 1] == p[j + 1]);
        } else {
            assert(q[j] == p.last() && q[j + 1] == x);
        }
    }
}

pub proof fn lemma_reaches_step(
    outs: Seq<Seq<TensorId>>,
    cons: Seq<Seq<OperationId>>,
    a: int,
    b: int,
    c: int,
)
    requires
        reaches(outs, cons, a, b),
        edge(outs, cons, b, c),
    ensures
        reaches(outs, cons, a, c),
{
    let p = choose|p: Seq<int>| #[trigger] is_path(outs, cons, p) && p[0] == a && p.last() == b;
    lemma_path_push(outs, cons, p, c);
}

pub proof fn lemma_reaches_refl(outs: Seq<Seq<TensorId>>, cons: Seq<Seq<OperationId>>, a: int)
    ensures
        reaches(outs, cons, a, a),
{
    let p = seq![a];
    assert(is_path(outs, cons, p));
}

/// In an acyclic graph, no edge leads back to a node that reaches its source.
pub proof fn lemma_no_back_edge(
    outs: Seq<Seq<TensorId>>,
    cons: Seq<Seq<OperationId>>,
    a: int,
    b: int,
)
    requires
        acyclic(outs, cons),
        reaches(outs, cons, a, b),
    ensures
        !edge(outs, cons, b, a),
{
    let p = choose|p: Seq<int>| #[trigger] is_path(outs, cons, p) && p[0] == a && p.last() == b;
    if edge(outs, cons, b, a) {
        lemma_path_push(outs, cons, p, a);
        assert(is_path(outs, cons, p.push(a)));
    }
}

#[derive(Clone, Copy, PartialEq, Eq, Structural)]
enum DfsState {
    Unvisited,
    Visiting,
    Visited,
}

spec fn count_state(s: Seq<DfsState>, st: DfsState) -> nat
    decreases s.len(),
{
    if s.len() == 0 {
        0
    } else {
        count_state(s.drop_last(), st) + if s.last() == st {
            1nat
        } else {
            0nat
        }
    }
}

proof fn lemma_count_state_update(s: Seq<DfsState>, i: int, x: DfsState, st: DfsState)
    requires
        0 <= i < s.len(),
    ensures
        count_state(s.update(i, x), st) + (if s[i] == st {
            1int
        } else {
            0int
        }) == count_state(s, st) + (if x == st {
            1int
        } else {
            0int
        }),
    decreases s.len(),
{
    let u = s.update(i, x);
    if i < s.len() - 1 {
        assert(u.drop_last() =~= s.drop_last().update(i, x));
        lemma_count_state_update(s.drop_last(), i, x, st);
    } else {
        assert(u.drop_last() =~= s.drop_last());
    }
}

proof fn lemma_count_state_all(s: Seq<DfsState>, st: DfsState)
    requires
        forall|i: int| 0 <= i < s.len() ==> s[i] == st,
    ensures
        count_state(s, st) == s.len(),
    decreases s.len(),
{
    if s.len() > 0 {
        lemma_count_state_all(s.drop_last(), st);
    }
}

proof fn lemma_count_state_none(s: Seq<DfsState>, st: DfsState)
    requires
        forall|i: int| 0 <= i < s.len() ==> s[i] != st,
    ensures
        count_state(s, st) == 0,
    decreases s.len(),
{
    if s.len() > 0 {
        lemma_count_state_none(s.drop_last(), st);
    }
}

spec fn dfs_weight(s: Seq<DfsState>) -> nat {
    2 * count_state(s, DfsState::Unvisited) + count_state(s, DfsState::Visiting)
}

/// An order of all operations, and the position of each operation in it.
pub struct TopologicalOrder {
    order: Vec<OperationId>,
    position: Vec<usize>,
}

impl TopologicalOrder {
    pub closed spec fn order_seq(&self) -> Seq<OperationId> {
        self.order@
    }

    pub closed spec fn position_seq(&self) -> Seq<usize> {
        self.position@
    }

    /// `order_seq` is a permutation of the operations `0..n`, and `position_seq`
    /// is its inverse.
    pub open spec fn wf(&self, n: nat) -> bool {
        &&& self.order_seq().len() == n
        &&& self.position_seq().len() == n
        &&& forall|i: int|
            0 <= i < n ==> (#[trigger] self.order_seq()[i]).0 < n && self.position_seq()[self.order_seq()[i].0 as int] == i
        &&& forall|v: int|
            0 <= v < n ==> (#[trigger] self.position_seq()[v]) < n
                && self.order_seq()[self.position_seq()[v] as int].0 == v
    }

    /// Position of `op` in the order.
    pub open spec fn pos(&self, op: OperationId) -> int {
        self.position_seq()[op.0 as int] as int
    }
}

/// The adjacency handed to the depth-first search is in range.
spec fn dfs_input_ok(n: nat, outputs: Seq<Vec<TensorId>>, consumers: Seq<Vec<OperationId>>) -> bool {
    &&& outputs.len() == n
    &&& ids_below(nested(outputs), consumers.len() as nat)
    &&& forall|t: int, k: int|
        0 <= t < consumers.len() && 0 <= k < consumers[t].len() ==> #[trigger] consumers[t]@[k].0 < n
}

/// State of the iterative depth-first search.
struct DfsRun {
    state: Vec<DfsState>,
    stack: Vec<OperationId>,
    post_order: Vec<OperationId>,
    /// For a node being visited, the stack slot from which it was expanded.
    epos: Ghost<Seq<int>>,
    /// For a finished node, its index in `post_order`.
    pidx: Ghost<Seq<int>>,
}

impl DfsRun {
    spec fn post_inv(&self, n: nat, outs: Seq<Seq<TensorId>>, cons: Seq<Seq<OperationId>>) -> bool {
        let state = self.state@;
        let post = self.post_order@;
        let pidx = self.pidx@;
        &&& state.len() == n
        &&& self.epos@.len() == n
        &&& pidx.len() == n
        &&& post.len() == count_state(state, DfsState::Visited)
        &&& forall|i: int|
            0 <= i < post.len() ==> (#[trigger] post[i]).0 < n && state[post[i].0 as int]
                == DfsState::Visited && pidx[post[i].0 as int] == i
        &&& forall|v: int|
            0 <= v < n && #[trigger] state[v] == DfsState::Visited ==> 0 <= pidx[v] < post.len()
                && post[pidx[v]].0 == v
        &&& acyclic(outs, cons) ==> forall|v: int, c: int|
            0 <= v < n && state[v] == DfsState::Visited && #[trigger] edge(outs, cons, v, c) ==> 0
                <= c < n && state[c] == DfsState::Visited && pidx[c] < pidx[v]
    }

    spec fn stack_inv(&self, n: nat, outs: Seq<Seq<TensorId>>, cons: Seq<Seq<OperationId>>) -> bool {
        let state = self.state@;
        let stack = self.stack@;
        let epos = self.epos@;
        &&& forall|j: int| 0 <= j < stack.len() ==> (#[trigger] stack[j]).0 < n
        &&& forall|j: int|
            0 <= j < stack.len() && state[(#[trigger] stack[j]).0 as int] == DfsState::Visiting
                ==> j <= epos[stack[j].0 as int]
        &&& forall|v: int|
            0 <= v < n && #[trigger] state[v] == DfsState::Visiting ==> 0 <= epos[v] < stack.len()
                && stack[epos[v]].0 == v
        &&& forall|v: int, j: int|
            0 <= v < n && state[v] == DfsState::Visiting && epos[v] < j < stack.len()
                ==> #[trigger] reaches(outs, cons, v, stack[j].0 as int)
        &&& acyclic(outs, cons) ==> forall|v: int, c: int|
            0 <= v < n && state[v] == DfsState::Visiting && #[trigger] edge(outs, cons, v, c)
                ==> state[c] == DfsState::Visited || exists|j: int|
                epos[v] < j < stack.len() && (#[trigger] stack[j]).0 == c
    }

    /// Expands the unvisited node on top of the stack: marks it as being
    /// visited and pushes its unvisited consumers.
    #[verifier::loop_isolation(false)]
    fn expand(&mut self, n: usize, outputs: &Vec<Vec<TensorId>>, consumers: &Vec<Vec<OperationId>>)
        requires
            dfs_input_ok(n as nat, outputs@, consumers@),
            old(self).post_inv(n as nat, nested(outputs@), nested(consumers@)),
            old(self).stack_inv(n as nat, nested(outputs@), nested(consumers@)),
            old(self).stack.len() > 0,
            old(self).state@[old(self).stack@.last().0 as int] == DfsState::Unvisited,
        ensures
            final(self).post_inv(n as nat, nested(outputs@), nested(consumers@)),
            final(self).stack_inv(n as nat, nested(outputs@), nested(consumers@)),
            final(self).state@ == old(self).state@.update(
                old(self).stack@.last().0 as int,
                DfsState::Visiting,
            ),
    {
        let ghost outs = nested(outputs@);
        let ghost cons = nested(consumers@);
        let ghost acyc = acyclic(outs, cons);
        let top = self.stack.len() - 1;
        let op = self.stack[top];
        let u = op.0;
        let ghost stack0 = self.stack@;
        let ghost state0 = self.state@;
        proof {
            lemma_count_state_update(self.state@, u as int, DfsState::Visiting, DfsState::Visited);
        }
        self.state.set(u, DfsState::Visiting);
        self.epos = Ghost(self.epos@.update(u as int, top as int));
        let ghost state1 = self.state@;
        let ghost epos1 = self.epos@;
        let ghost pidx1 = self.pidx@;
        let ghost post1 = self.post_order@;
        let outs_u = &outputs[u];
        for i in 0..outs_u.len()
            invariant
                self.state@ == state1,
                self.epos@ == epos1,
                self.pidx@ == pidx1,
                self.post_order@ == post1,
                outs_u@ == outs[u as int],
                self.stack.len() >= top + 1,
                forall|j: int| 0 <= j <= top ==> #[trigger] self.stack@[j] == stack0[j],
                forall|j: int|
                    top < j < self.stack.len() ==> (#[trigger] self.stack@[j]).0 < n
                        && self.state@[self.stack@[j].0 as int] == DfsState::Unvisited
                        && edge(outs, cons, u as int, self.stack@[j].0 as int),
                acyc ==> forall|i2: int, k2: int|
                    0 <= i2 < i && 0 <= k2 < cons[outs[u as int][i2].0 as int].len()
                        ==> self.state@[#[trigger] cons[outs[u as int][i2].0 as int][k2].0 as int]
                        == DfsState::Visited || exists|j: int|
                        top < j < self.stack.len() && (#[trigger] self.stack@[j]).0
                            == cons[outs[u as int][i2].0 as int][k2].0,
        {
            let t = outs_u[i];
            assert(outs[u as int][i as int] == t);
            let cs = &consumers[t.0];
            for k in 0..cs.len()
                invariant
                    self.state@ == state1,
                    self.epos@ == epos1,
                    self.pidx@ == pidx1,
                    self.post_order@ == post1,
                    cs@ == cons[t.0 as int],
                    outs[u as int][i as int] == t,
                    self.stack.len() >= top + 1,
                    forall|j: int| 0 <= j <= top ==> #[trigger] self.stack@[j] == stack0[j],
                    forall|j: int|
                        top < j < self.stack.len() ==> (#[trigger] self.stack@[j]).0 < n
                            && self.state@[self.stack@[j].0 as int] == DfsState::Unvisited
                            && edge(outs, cons, u as int, self.stack@[j].0 as int),
                    acyc ==> forall|i2: int, k2: int|
                        0 <= i2 < i && 0 <= k2 < cons[outs[u as int][i2].0 as int].len()
                            ==> self.state@[#[trigger] cons[outs[u as int][i2].0 as int][k2].0 as int]
                            == DfsState::Visited || exists|j: int|
                            top < j < self.stack.len() && (#[trigger] self.stack@[j]).0
                                == cons[outs[u as int][i2].0 as int][k2].0,
                    acyc ==> forall|k2: int|
                        0 <= k2 < k ==> self.state@[#[trigger] cons[t.0 as int][k2].0 as int]
                            == DfsState::Visited || exists|j: int|
                            top < j < self.stack.len() && (#[trigger] self.stack@[j]).0
                                == cons[t.0 as int][k2].0,
            {
                let c = cs[k];
                assert(cons[outs[u as int][i as int].0 as int][k as int] == c);
                assert(edge(outs, cons, u as int, c.0 as int));
                let ghost stack1 = self.stack@;
                if self.state[c.0] == DfsState::Unvisited {
                    self.stack.push(c);
                    assert(self.stack@[self.stack.len() - 1] == c);
                } else if self.state[c.0] == DfsState::Visiting {
                    proof {
                        if acyc {
                            if c.0 == u {
                                lemma_reaches_refl(outs, cons, u as int);
                                lemma_no_back_edge(outs, cons, u as int, u as int);
                            } else {
                                let e = self.epos@[c.0 as int];
                                assert(state0[c.0 as int] == DfsState::Visiting);
                                assert(stack0[e].0 == c.0);
                                assert(e < top);
                                assert(reaches(outs, cons, c.0 as int, stack0[top as int].0 as int));
                                lemma_no_back_edge(outs, cons, c.0 as int, u as int);
                            }
                        }
                    }
                }
                assert(forall|j: int| 0 <= j < stack1.len() ==> self.stack@[j] == stack1[j]);
            }
        }
        proof {
            let state = self.state@;
            let stack = self.stack@;
            let epos = self.epos@;
            assert(stack[top as int] == op);
            assert forall|j: int|
                0 <= j < stack.len() && state[(#[trigger] stack[j]).0 as int] == DfsState::Visiting
                implies j <= epos[stack[j].0 as int] by {
                if j <= top && stack[j].0 != u {
                    assert(stack0[j] == stack[j]);
                }
            }
            assert forall|v: int|
                0 <= v < n && #[trigger] state[v] == DfsState::Visiting implies 0 <= epos[v] < stack.len()
                    && stack[epos[v]].0 == v by {
                if v != u {
                    assert(state0[v] == DfsState::Visiting);
                    assert(stack[epos[v]] == stack0[epos[v]]);
                }
            }
            assert forall|v: int, j: int|
                0 <= v < n && state[v] == DfsState::Visiting && epos[v] < j < stack.len()
                implies #[trigger] reaches(outs, cons, v, stack[j].0 as int) by {
                if j <= top {
                    assert(stack[j] == stack0[j]);
                    assert(state0[v] == DfsState::Visiting);
                } else if v == u {
                    lemma_reaches_refl(outs, cons, u as int);
                    lemma_reaches_step(outs, cons, u as int, u as int, stack[j].0 as int);
                } else {
                    assert(state0[v] == DfsState::Visiting);
                    assert(stack0[epos[v]].0 == v);
                    assert(epos[v] < top);
                    assert(stack0[top as int] == op);
                    assert(reaches(outs, cons, v, stack0[top as int].0 as int));
                    lemma_reaches_step(outs, cons, v, u as int, stack[j].0 as int);
                }
            }
            if acyc {
                assert forall|v: int, c: int|
                    0 <= v < n && state[v] == DfsState::Visiting && #[trigger] edge(outs, cons, v, c)
                    implies state[c] == DfsState::Visited || exists|j: int|
                        epos[v] < j < stack.len() && (#[trigger] stack[j]).0 == c by {
                    if v == u {
                        let (i2, k2) = choose|i2: int, k2: int|
                            0 <= v < outs.len() && 0 <= i2 < outs[v].len() && 0 <= outs[v][i2].0
                                < cons.len() && 0 <= k2 < cons[outs[v][i2].0 as int].len()
                                && #[trigger] cons[outs[v][i2].0 as int][k2].0 == c;
                        assert(cons[outs[u as int][i2].0 as int][k2].0 == c);
                    } else {
                        assert(state0[v] == DfsState::Visiting);
                        if state[c] != DfsState::Visited {
                            assert(state0[c] != DfsState::Visited);
                            let j = choose|j: int|
                                epos[v] < j < stack0.len() && (#[trigger] stack0[j]).0 == c;
                            assert(stack[j] == stack0[j]);
                        }
                    }
                }
            }
            assert forall|v: int|
                0 <= v < n && #[trigger] state[v] == DfsState::Visited implies 0 <= self.pidx@[v]
                    < self.post_order.len() && self.post_order@[self.pidx@[v]].0 == v by {
                assert(state0[v] == DfsState::Visited);
            }
        }
    }

    /// Finishes the node on top of the stack, whose consumers are all finished.
    fn finish(&mut self, n: usize, outputs: &Vec<Vec<TensorId>>, consumers: &Vec<Vec<OperationId>>)
        requires
            dfs_input_ok(n as nat, outputs@, consumers@),
            old(self).post_inv(n as nat, nested(outputs@), nested(consumers@)),
            old(self).stack_inv(n as nat, nested(outputs@), nested(consumers@)),
            old(self).stack.len() > 0,
            old(self).state@[old(self).stack@.last().0 as int] == DfsState::Visiting,
        ensures
            final(self).post_inv(n as nat, nested(outputs@), nested(consumers@)),
            final(self).stack_inv(n as nat, nested(outputs@), nested(consumers@)),
            final(self).state@ == old(self).state@.update(
                old(self).stack@.last().0 as int,
                DfsState::Visited,
            ),
            final(self).stack@ == old(self).stack@.drop_last(),
    {
        let ghost outs = nested(outputs@);
        let ghost cons = nested(consumers@);
        let ghost acyc = acyclic(outs, cons);
        let top = self.stack.len() - 1;
        let op = self.stack[top];
        let u = op.0;
        let ghost stack0 = self.stack@;
        let ghost state0 = self.state@;
        proof {
            lemma_count_state_update(self.state@, u as int, DfsState::Visited, DfsState::Visited);
            assert(self.epos@[u as int] == top);
        }
        self.state.set(u, DfsState::Visited);
        self.pidx = Ghost(self.pidx@.update(u as int, self.post_order.len() as int));
        self.post_order.push(op);
        self.stack.pop();
        proof {
            let state = self.state@;
            let stack = self.stack@;
            let epos = self.epos@;
            let pidx = self.pidx@;
            let post = self.post_order@;
            assert forall|i: int|
                0 <= i < post.len() implies (#[trigger] post[i]).0 < n && state[post[i].0 as int]
                    == DfsState::Visited && pidx[post[i].0 as int] == i by {
                if i < post.len() - 1 {
                    assert(post[i] == self.post_order@.drop_last()[i]);
                }
            }
            assert forall|j: int|
                0 <= j < stack.len() && state[(#[trigger] stack[j]).0 as int] == DfsState::Visiting
                implies j <= epos[stack[j].0 as int] by {
                assert(stack[j] == stack0[j]);
            }
            assert forall|v: int|
                0 <= v < n && #[trigger] state[v] == DfsState::Visiting implies 0 <= epos[v] < stack.len()
                    && stack[epos[v]].0 == v by {
                assert(state0[v] == DfsState::Visiting);
                assert(stack0[epos[v]].0 == v);
            }
            assert forall|v: int, j: int|
                0 <= v < n && state[v] == DfsState::Visiting && epos[v] < j < stack.len()
                implies #[trigger] reaches(outs, cons, v, stack[j].0 as int) by {
                assert(stack[j] == stack0[j]);
                assert(state0[v] == DfsState::Visiting);
                assert(reaches(outs, cons, v, stack0[j].0 as int));
            }
            if acyc {
                assert forall|v: int, c: int|
                    0 <= v < n && state[v] == DfsState::Visiting && #[trigger] edge(outs, cons, v, c)
                    implies state[c] == DfsState::Visited || exists|j: int|
                        epos[v] < j < stack.len() && (#[trigger] stack[j]).0 == c by {
                    assert(state0[v] == DfsState::Visiting);
                    if state[c] != DfsState::Visited {
                        let j = choose|j: int|
                            epos[v] < j < stack0.len() && (#[trigger] stack0[j]).0 == c;
                        assert(j != top);
                        assert(stack[j] == stack0[j]);
                    }
                }
                assert forall|v: int, c: int|
                    0 <= v < n && state[v] == DfsState::Visited && #[trigger] edge(outs, cons, v, c)
                    implies 0 <= c < n && state[c] == DfsState::Visited && pidx[c] < pidx[v] by {
                    let (i2, k2) = choose|i2: int, k2: int|
                        0 <= v < outs.len() && 0 <= i2 < outs[v].len() && 0 <= outs[v][i2].0 < cons.len()
                            && 0 <= k2 < cons[outs[v][i2].0 as int].len()
                            && #[trigger] cons[outs[v][i2].0 as int][k2].0 == c;
                    assert(consumers@[outs[v][i2].0 as int]@[k2].0 < n);
                    if v == u {
                        if state0[c] != DfsState::Visited {
                            let j = choose|j: int|
                                epos[v] < j < stack0.len() && (#[trigger] stack0[j]).0 == c;
                        }
                    } else {
                        assert(state0[v] == DfsState::Visited);
                    }
                }
            }
        }
    }

    /// Drops the already finished node on top of the stack.
    fn skip(&mut self, n: usize, outputs: &Vec<Vec<TensorId>>, consumers: &Vec<Vec<OperationId>>)
        requires
            dfs_input_ok(n as nat, outputs@, consumers@),
            old(self).post_inv(n as nat, nested(outputs@), nested(consumers@)),
            old(self).stack_inv(n as nat, nested(outputs@), nested(consumers@)),
            old(self).stack.len() > 0,
            old(self).state@[old(self).stack@.last().0 as int] == DfsState::Visited,
        ensures
            final(self).post_inv(n as nat, nested(outputs@), nested(consumers@)),
            final(self).stack_inv(n as nat, nested(outputs@), nested(consumers@)),
            final(self).state@ == old(self).state@,
            final(self).stack@ == old(self).stack@.drop_last(),
    {
        let ghost outs = nested(outputs@);
        let ghost cons = nested(consumers@);
        let ghost stack0 = self.stack@;
        let top = self.stack.len() - 1;
        self.stack.pop();
        proof {
            let state = self.state@;
            let stack = self.stack@;
            let epos = self.epos@;
            assert forall|j: int|
                0 <= j < stack.len() && state[(#[trigger] stack[j]).0 as int] == DfsState::Visiting
                implies j <= epos[stack[j].0 as int] by {
                assert(stack[j] == stack0[j]);
            }
            assert forall|v: int|
                0 <= v < n && #[trigger] state[v] == DfsState::Visiting implies 0 <= epos[v] < stack.len()
                    && stack[epos[v]].0 == v by {
                assert(stack0[epos[v]].0 == v);
            }
            assert forall|v: int, j: int|
                0 <= v < n && state[v] == DfsState::Visiting && epos[v] < j < stack.len()
                implies #[trigger] reaches(outs, cons, v, stack[j].0 as int) by {
                assert(stack[j] == stack0[j]);
                assert(reaches(outs, cons, v, stack0[j].0 as int));
            }
            if acyclic(outs, cons) {
                assert forall|v: int, c: int|
                    0 <= v < n && state[v] == DfsState::Visiting && #[trigger] edge(outs, cons, v, c)
                    implies state[c] == DfsState::Visited || exists|j: int|
                        epos[v] < j < stack.len() && (#[trigger] stack[j]).0 == c by {
                    if state[c] != DfsState::Visited {
                        let j = choose|j: int|
                            epos[v] < j < stack0.len() && (#[trigger] stack0[j]).0 == c;
                        assert(j != top);
                        assert(stack[j] == stack0[j]);
                    }
                }
            }
        }
    }
}

/// Orders the operations by reversed depth-first post-order along the edges;
/// in an acyclic graph every edge then points forward in the order.
fn dfs_order(n: usize, outputs: &Vec<Vec<TensorId>>, consumers: &Vec<Vec<OperationId>>) -> (r:
    TopologicalOrder)
    requires
        dfs_input_ok(n as nat, outputs@, consumers@),
    ensures
        r.wf(n as nat),
        acyclic(nested(outputs@), nested(consumers@)) ==> forall|a: int, b: int|
            #[trigger] edge(nested(outputs@), nested(consumers@), a, b) ==> r.position_seq()[a]
                < r.position_seq()[b],
{
    let ghost outs = nested(outputs@);
    let ghost cons = nested(consumers@);
    let mut state: Vec<DfsState> = Vec::new();
    for i in 0..n
        invariant
            state.len() == i,
            forall|j: int| 0 <= j < i ==> state@[j] == DfsState::Unvisited,
    {
        state.push(DfsState::Unvisited);
    }
    proof {
        lemma_count_state_none(state@, DfsState::Visited);
    }
    let mut run = DfsRun {
        state,
        stack: Vec::new(),
        post_order: Vec::new(),
        epos: Ghost(Seq::new(n as nat, |i: int| 0int)),
        pidx: Ghost(Seq::new(n as nat, |i: int| 0int)),
    };
    for start in 0..n
        invariant
            dfs_input_ok(n as nat, outputs@, consumers@),
            outs == nested(outputs@),
            cons == nested(consumers@),
            run.post_inv(n as nat, outs, cons),
            run.stack_inv(n as nat, outs, cons),
            run.stack.len() == 0,
            forall|v: int| 0 <= v < start ==> run.state@[v] == DfsState::Visited,
    {
        if run.state[start] == DfsState::Unvisited {
            run.stack.push(OperationId(start));
            assert(run.stack_inv(n as nat, outs, cons));
            while run.stack.len() > 0
                invariant
                    dfs_input_ok(n as nat, outputs@, consumers@),
                    outs == nested(outputs@),
                    cons == nested(consumers@),
                    start < n,
                    run.post_inv(n as nat, outs, cons),
                    run.stack_inv(n as nat, outs, cons),
                    run.state@[start as int] == DfsState::Unvisited ==> run.stack@ == seq![OperationId(start)],
                    forall|v: int| 0 <= v < start ==> run.state@[v] == DfsState::Visited,
                decreases dfs_weight(run.state@), run.stack.len(),
            {
                let top = run.stack.len() - 1;
                let u = run.stack[top].0;
                let ghost s0 = run.state@;
                if run.state[u] == DfsState::Unvisited {
                    run.expand(n, outputs, consumers);
                    proof {
                        lemma_count_state_update(s0, u as int, DfsState::Visiting, DfsState::Unvisited);
                        lemma_count_state_update(s0, u as int, DfsState::Visiting, DfsState::Visiting);
                    }
                } else if run.state[u] == DfsState::Visiting {
                    run.finish(n, outputs, consumers);
                    proof {
                        lemma_count_state_update(s0, u as int, DfsState::Visited, DfsState::Unvisited);
                        lemma_count_state_update(s0, u as int, DfsState::Visited, DfsState::Visiting);
                    }
                } else {
                    run.skip(n, outputs, consumers);
                }
            }
            assert(run.state@[start as int] == DfsState::Visited);
        }
    }
    proof {
        lemma_count_state_all(run.state@, DfsState::Visited);
    }
    let ghost pidx = run.pidx@;
    let post_order = run.post_order;
    // Reverse the post-order.
    let mut order: Vec<OperationId> = Vec::new();
    let mut k: usize = n;
    while k > 0
        invariant
            k <= n,
            order.len() == n - k,
            post_order.len() == n,
            forall|i: int| 0 <= i < order.len() ==> #[trigger] order@[i] == post_order@[n - 1 - i],
        decreases k,
    {
        k = k - 1;
        order.push(post_order[k]);
    }
    let mut position: Vec<usize> = Vec::new();
    for i in 0..n
        invariant
            position.len() == i,
            forall|j: int| 0 <= j < i ==> position@[j] == 0,
    {
        position.push(0);
    }
    for i in 0..n
        invariant
            position.len() == n,
            order.len() == n,
            post_order.len() == n,
            pidx.len() == n,
            forall|i: int| 0 <= i < n ==> #[trigger] order@[i] == post_order@[n - 1 - i],
            forall|i: int|
                0 <= i < n ==> (#[trigger] post_order@[i]).0 < n && pidx[post_order@[i].0 as int] == i,
            forall|j: int| 0 <= j < i ==> position@[(#[trigger] order@[j]).0 as int] == j,
            forall|v: int| 0 <= v < n ==> (#[trigger] position@[v] as int) < n,
    {
        assert(order@[i as int] == post_order@[n - 1 - i]);
        position.set(order[i].0, i);
        assert forall|j: int| 0 <= j < i implies position@[(#[trigger] order@[j]).0 as int] == j by {
            let a = order@[j];
            let b = order@[i as int];
            assert(a == post_order@[n - 1 - j]);
            assert(pidx[a.0 as int] == n - 1 - j);
            assert(pidx[b.0 as int] == n - 1 - i);
        }
    }
    let r = TopologicalOrder { order, position };
    proof {
        assert forall|i: int| 0 <= i < n implies (#[trigger] r.order_seq()[i]).0 < n
            && r.position_seq()[r.order_seq()[i].0 as int] == i by {
            assert(order@[i] == post_order@[n - 1 - i]);
        }
        assert forall|v: int| 0 <= v < n implies (#[trigger] r.position_seq()[v]) < n
            && r.order_seq()[r.position_seq()[v] as int].0 == v by {
            assert(run.state@[v] == DfsState::Visited);
            let i = n - 1 - pidx[v];
            assert(order@[i] == post_order@[pidx[v]]);
            assert(order@[i].0 == v);
        }
        if acyclic(outs, cons) {
            assert forall|a: int, b: int| #[trigger] edge(outs, cons, a, b) implies r.position_seq()[a]
                < r.position_seq()[b] by {
                let (i2, k2) = choose|i2: int, k2: int|
                    0 <= a < outs.len() && 0 <= i2 < outs[a].len() && 0 <= outs[a][i2].0 < cons.len()
                        && 0 <= k2 < cons[outs[a][i2].0 as int].len()
                        && #[trigger] cons[outs[a][i2].0 as int][k2].0 == b;
                assert(run.state@[a] == DfsState::Visited);
                let ia = n - 1 - pidx[a];
                let ib = n - 1 - pidx[b];
                assert(order@[ia] == post_order@[pidx[a]]);
                assert(order@[ib] == post_order@[pidx[b]]);
            }
        }
    }
    r
}

fn copy_ids(v: &Vec<TensorId>) -> (r: Vec<TensorId>)
    ensures
        r@ == v@,
{
    let mut r: Vec<TensorId> = Vec::new();
    for i in 0..v.len()
        invariant
            r@ == v@.take(i as int),
    {
        r.push(v[i]);
        assert(v@.take(i + 1) =~= v@.take(i as int).push(v@[i as int]));
    }
    assert(v@.take(v.len() as int) =~= v@);
    r
}

fn copy_id_lists(v: &Vec<Vec<TensorId>>) -> (r: Vec<Vec<TensorId>>)
    ensures
        nested(r@) == nested(v@),
{
    let mut r: Vec<Vec<TensorId>> = Vec::new();
    for i in 0..v.len()
        invariant
            r.len() == i,
            forall|j: int| 0 <= j < i ==> #[trigger] r@[j]@ == v@[j]@,
    {
        r.push(copy_ids(&v[i]));
    }
    assert(nested(r@) =~= nested(v@));
    r
}

/// A computation graph: operations that consume and produce tensors.
pub struct ComputationGraph {
    operations: Vec<Operation>,
    tensors: Vec<Tensor>,
    inputs: Vec<Vec<TensorId>>,
    outputs: Vec<Vec<TensorId>>,
    producer: Vec<Option<OperationId>>,
    consumers: Vec<Vec<OperationId>>,
    topological_order: TopologicalOrder,
}

impl ComputationGraph {
    pub closed spec fn ops(&self) -> Seq<Operation> {
        self.operations@
    }

    pub closed spec fn tensor_seq(&self) -> Seq<Tensor> {
        self.tensors@
    }

    /// Input tensors of each operation.
    pub closed spec fn ins(&self) -> Seq<Seq<TensorId>> {
        nested(self.inputs@)
    }

    /// Output tensors of each operation.
    pub closed spec fn outs(&self) -> Seq<Seq<TensorId>> {
        nested(self.outputs@)
    }

    /// Producer of each tensor.
    pub closed spec fn prods(&self) -> Seq<Option<OperationId>> {
        self.producer@
    }

    /// Consumers of each tensor.
    pub closed spec fn cons(&self) -> Seq<Seq<OperationId>> {
        nested(self.consumers@)
    }

    pub closed spec fn topo(&self) -> TopologicalOrder {
        self.topological_order
    }

    pub open spec fn num_ops(&self) -> nat {
        self.ops().len()
    }

    pub open spec fn num_tensors(&self) -> nat {
        self.tensor_seq().len()
    }

    /// Some output of `a` is an input of `b`.
    pub open spec fn has_edge(&self, a: int, b: int) -> bool {
        edge(self.outs(), self.cons(), a, b)
    }

    pub open spec fn is_acyclic(&self) -> bool {
        acyclic(self.outs(), self.cons())
    }

    /// Position of `op` in the graph's topological order.
    pub open spec fn pos(&self, op: OperationId) -> int {
        self.topo().pos(op)
    }

    /// The producer of `t` according to the outputs lists.
    pub open spec fn producer_is(&self, t: int, p: Option<OperationId>) -> bool {
        match p {
            Some(o) => 0 <= o.0 < self.num_ops() && self.outs()[o.0 as int].contains(TensorId(t as usize)),
            None => forall|o: int| 0 <= o < self.num_ops() ==> !self.outs()[o].contains(TensorId(t as usize)),
        }
    }

    pub open spec fn wf(&self) -> bool {
        let n = self.num_ops();
        let nt = self.num_tensors();
        &&& n < usize::MAX
        &&& self.ins().len() == n
        &&& self.outs().len() == n
        &&& forall|t: int| 0 <= t < nt ==> (#[trigger] self.tensor_seq()[t]).id == TensorId(t as usize)
        &&& ids_below(self.ins(), nt)
        &&& ids_below(self.outs(), nt)
        &&& has_unique_producers(self.outs())
        &&& self.prods().len() == nt
        &&& self.cons().len() == nt
        &&& forall|t: int| 0 <= t < nt ==> #[trigger] self.cons()[t] == consumer_list(self.ins(), TensorId(t as usize))
        &&& forall|t: int| 0 <= t < nt ==> self.producer_is(t, #[trigger] self.prods()[t])
        &&& self.topo().wf(n)
        &&& self.is_acyclic() ==> forall|a: int, b: int| #[trigger] self.has_edge(a, b) ==> self.topo().position_seq()[a]
            < self.topo().position_seq()[b]
    }

    /// Builds the graph of a problem instance.
    pub fn new(input: &InputFormat) -> (g: Self)
        requires
            input.widths.len() == input.heights.len(),
            input.inputs.len() < usize::MAX,
            input.outputs.len() == input.inputs.len(),
            input.base_costs.len() == input.inputs.len(),
            input.op_types.len() == input.inputs.len(),
            ids_below(nested(input.inputs@), input.widths.len() as nat),
            ids_below(nested(input.outputs@), input.widths.len() as nat),
            has_unique_producers(nested(input.outputs@)),
        ensures
            g.wf(),
            g.num_ops() == input.inputs.len(),
            g.num_tensors() == input.widths.len(),
            forall|t: int|
                0 <= t < g.num_tensors() ==> #[trigger] g.tensor_seq()[t] == (Tensor {
                    id: TensorId(t as usize),
                    width: input.widths@[t],
                    height: input.heights@[t],
                }),
            forall|o: int|
                0 <= o < g.num_ops() ==> #[trigger] g.ops()[o] == (Operation {
                    kind: input.op_types@[o],
                    base_cost: input.base_costs@[o],
                }),
            g.ins() == nested(input.inputs@),
            g.outs() == nested(input.outputs@),
    {
        let num_tensors = input.widths.len();
        let num_ops = input.inputs.len();
        let ghost ins = nested(input.inputs@);
        let ghost outs = nested(input.outputs@);
        let mut tensors: Vec<Tensor> = Vec::new();
        for t in 0..num_tensors
            invariant
                num_tensors == input.widths.len(),
                num_tensors == input.heights.len(),
                tensors.len() == t,
                forall|j: int|
                    0 <= j < t ==> #[trigger] tensors@[j] == (Tensor {
                        id: TensorId(j as usize),
                        width: input.widths@[j],
                        height: input.heights@[j],
                    }),
        {
            tensors.push(Tensor { id: TensorId(t), width: input.widths[t], height: input.heights[t] });
        }
        let mut operations: Vec<Operation> = Vec::new();
        for o in 0..num_ops
            invariant
                num_ops == input.inputs.len(),
                num_ops == input.op_types.len(),
                num_ops == input.base_costs.len(),
                operations.len() == o,
                forall|j: int|
                    0 <= j < o ==> #[trigger] operations@[j] == (Operation {
                        kind: input.op_types@[j],
                        base_cost: input.base_costs@[j],
                    }),
        {
            operations.push(Operation { kind: input.op_types[o], base_cost: input.base_costs[o] });
        }
        let inputs = copy_id_lists(&input.inputs);
        let outputs = copy_id_lists(&input.outputs);

        let mut producer: Vec<Option<OperationId>> = Vec::new();
        for t in 0..num_tensors
            invariant
                producer.len() == t,
                forall|j: int| 0 <= j < t ==> producer@[j] is None,
        {
            producer.push(None);
        }
        for o in 0..num_ops
            invariant
                num_ops == input.outputs.len(),
                num_tensors == input.widths.len(),
                outs == nested(input.outputs@),
                outs.len() == num_ops,
                ids_below(outs, num_tensors as nat),
                has_unique_producers(outs),
                producer.len() == num_tensors,
                forall|t: int|
                    0 <= t < num_tensors ==> match #[trigger] producer@[t] {
                        Some(p) => 0 <= p.0 < o && outs[p.0 as int].contains(TensorId(t as usize)),
                        None => forall|p: int| 0 <= p < o ==> !outs[p].contains(TensorId(t as usize)),
                    },
        {
            let op_outputs = &input.outputs[o];
            assert(op_outputs@ == outs[o as int]);
            for i in 0..op_outputs.len()
                invariant
                    num_ops == input.outputs.len(),
                    o < num_ops,
                    num_tensors == input.widths.len(),
                    op_outputs@ == outs[o as int],
                    outs.len() == num_ops,
                    ids_below(outs, num_tensors as nat),
                    has_unique_producers(outs),
                    producer.len() == num_tensors,
                    forall|t: int|
                        0 <= t < num_tensors ==> match #[trigger] producer@[t] {
                            Some(p) => (0 <= p.0 < o && outs[p.0 as int].contains(TensorId(t as usize)))
                                || (p.0 == o && op_outputs@.take(i as int).contains(TensorId(t as usize))),
                            None => (forall|p: int| 0 <= p < o ==> !outs[p].contains(TensorId(t as usize)))
                                && !op_outputs@.take(i as int).contains(TensorId(t as usize)),
                        },
            {
                let tid = op_outputs[i];
                assert(outs[o as int][i as int] == tid);
                assert(outs[o as int][i as int].0 < num_tensors);
                producer.set(tid.0, Some(OperationId(o)));
                assert forall|t: int| 0 <= t < num_tensors implies match #[trigger] producer@[t] {
                    Some(p) => (0 <= p.0 < o && outs[p.0 as int].contains(TensorId(t as usize)))
                        || (p.0 == o && op_outputs@.take(i + 1).contains(TensorId(t as usize))),
                    None => (forall|p: int| 0 <= p < o ==> !outs[p].contains(TensorId(t as usize)))
                        && !op_outputs@.take(i + 1).contains(TensorId(t as usize)),
                } by {
                    assert(op_outputs@.take(i + 1) =~= op_outputs@.take(i as int).push(tid));
                    if t == tid.0 {
                        assert(op_outputs@.take(i + 1)[i as int] == tid);
                    } else {
                        if op_outputs@.take(i + 1).contains(TensorId(t as usize)) {
                            let k = choose|k: int| 0 <= k < i + 1 && #[trigger] op_outputs@.take(i + 1)[k] == TensorId(t as usize);
                            assert(op_outputs@.take(i as int)[k] == TensorId(t as usize));
                        }
                    }
                }
            }
            assert(op_outputs@.take(op_outputs.len() as int) =~= op_outputs@);
            assert forall|t: int| 0 <= t < num_tensors implies match #[trigger] producer@[t] {
                Some(p) => 0 <= p.0 < o + 1 && outs[p.0 as int].contains(TensorId(t as usize)),
                None => forall|p: int| 0 <= p < o + 1 ==> !outs[p].contains(TensorId(t as usize)),
            } by {}
        }

        let mut consumers: Vec<Vec<OperationId>> = Vec::new();
        for t in 0..num_tensors
            invariant
                consumers.len() == t,
                forall|j: int| 0 <= j < t ==> (#[trigger] consumers@[j])@ == Seq::<OperationId>::empty(),
        {
            consumers.push(Vec::new());
        }
        for o in 0..num_ops
            invariant
                num_ops == input.inputs.len(),
                num_tensors == input.widths.len(),
                ins == nested(input.inputs@),
                ins.len() == num_ops,
                ids_below(ins, num_tensors as nat),
                consumers.len() == num_tensors,
                forall|t: int|
                    0 <= t < num_tensors ==> (#[trigger] consumers@[t])@ == consumer_list(
                        ins.take(o as int),
                        TensorId(t as usize),
                    ),
        {
            let op_inputs = &input.inputs[o];
            assert(op_inputs@ == ins[o as int]);
            for i in 0..op_inputs.len()
                invariant
                    num_ops == input.inputs.len(),
                    o < num_ops,
                    num_tensors == input.widths.len(),
                    op_inputs@ == ins[o as int],
                    ins.len() == num_ops,
                    ids_below(ins, num_tensors as nat),
                    consumers.len() == num_tensors,
                    forall|t: int|
                        0 <= t < num_tensors ==> (#[trigger] consumers@[t])@ == consumer_list(
                            ins.take(o as int),
                            TensorId(t as usize),
                        ) + Seq::new(
                            count_tensor(op_inputs@.take(i as int), TensorId(t as usize)),
                            |_k: int| OperationId(o),
                        ),
            {
                let tid = op_inputs[i];
                assert(ins[o as int][i as int] == tid);
                assert(ins[o as int][i as int].0 < num_tensors);
                let ghost c0 = consumers@;
                consumers[tid.0].push(OperationId(o));
                assert forall|t: int| 0 <= t < num_tensors implies (#[trigger] consumers@[t])@ == consumer_list(
                    ins.take(o as int),
                    TensorId(t as usize),
                ) + Seq::new(
                    count_tensor(op_inputs@.take(i + 1), TensorId(t as usize)),
                    |_k: int| OperationId(o),
                ) by {
                    lemma_count_take(op_inputs@, TensorId(t as usize), i as int);
                    if t == tid.0 {
                        assert(consumers@[t]@ =~= c0[t]@.push(OperationId(o)));
                        assert(consumers@[t]@ =~= consumer_list(ins.take(o as int), TensorId(t as usize)) + Seq::new(
                            count_tensor(op_inputs@.take(i + 1), TensorId(t as usize)),
                            |_k: int| OperationId(o),
                        ));
                    } else {
                        assert(consumers@[t] == c0[t]);
                        assert(consumers@[t]@ =~= consumer_list(ins.take(o as int), TensorId(t as usize)) + Seq::new(
                            count_tensor(op_inputs@.take(i + 1), TensorId(t as usize)),
                            |_k: int| OperationId(o),
                        ));
                    }
                }
            }
            assert(op_inputs@.take(op_inputs.len() as int) =~= op_inputs@);
            assert forall|t: int| 0 <= t < num_tensors implies (#[trigger] consumers@[t])@ == consumer_list(
                ins.take(o + 1),
                TensorId(t as usize),
            ) by {
                let pre = ins.take(o + 1);
                assert(pre.drop_last() =~= ins.take(o as int));
                assert(pre.last() == ins[o as int]);
                assert(consumers@[t]@ =~= consumer_list(pre, TensorId(t as usize)));
            }
        }
        assert(ins.take(num_ops as int) =~= ins);
        proof {
            assert forall|t: int, k: int|
                0 <= t < consumers.len() && 0 <= k < consumers@[t].len() implies #[trigger] consumers@[t]@[k].0
                    < num_ops by {
                lemma_consumer_list_bound(ins, TensorId(t as usize), k);
            }
        }
        assert(nested(outputs@) == outs);
        assert(dfs_input_ok(num_ops as nat, outputs@, consumers@));
        let topological_order = dfs_order(num_ops, &outputs, &consumers);
        let g = ComputationGraph { operations, tensors, inputs, outputs, producer, consumers, topological_order };
        proof {
            assert forall|t: int| 0 <= t < g.num_tensors() implies #[trigger] g.cons()[t] == consumer_list(
                g.ins(),
                TensorId(t as usize),
            ) by {
                assert(g.cons()[t] == consumers@[t]@);
            }
        }
        g
    }

    /// The producer of `t`, if `t` is a tensor of the graph that some operation outputs.
    pub open spec fn producer_spec(&self, t: TensorId) -> Option<OperationId> {
        if t.0 < self.num_tensors() {
            self.prods()[t.0 as int]
        } else {
            None
        }
    }

    pub fn num_operations(&self) -> (r: usize)
        requires
            self.wf(),
        ensures
            r == self.num_ops(),
    {
        self.operations.len()
    }

    pub fn tensors(&self) -> (r: &[Tensor])
        ensures
            r@ == self.tensor_seq(),
    {
        self.tensors.as_slice()
    }

    pub fn inputs(&self) -> (r: &Vec<Vec<TensorId>>)
        ensures
            nested(r@) == self.ins(),
    {
        &self.inputs
    }

    pub fn input_ids_for(&self, operation_id: OperationId) -> (r: &[TensorId])
        requires
            self.wf(),
            operation_id.0 < self.num_ops(),
        ensures
            r@ == self.ins()[operation_id.0 as int],
    {
        self.inputs[operation_id.0].as_slice()
    }

    pub fn inputs_for(&self, operation_id: OperationId) -> (r: Vec<Tensor>)
        requires
            self.wf(),
            operation_id.0 < self.num_ops(),
        ensures
            r@ == self.ins()[operation_id.0 as int].map_values(|t: TensorId| self.tensor_seq()[t.0 as int]),
    {
        let ids = &self.inputs[operation_id.0];
        let ghost target = self.ins()[operation_id.0 as int].map_values(|t: TensorId| self.tensor_seq()[t.0 as int]);
        let mut r: Vec<Tensor> = Vec::new();
        for i in 0..ids.len()
            invariant
                self.wf(),
                operation_id.0 < self.num_ops(),
                ids@ == self.ins()[operation_id.0 as int],
                target == ids@.map_values(|t: TensorId| self.tensor_seq()[t.0 as int]),
                r@ == target.take(i as int),
        {
            assert(self.ins()[operation_id.0 as int][i as int].0 < self.num_tensors());
            r.push(self.tensors[ids[i].0]);
            assert(target.take(i + 1) =~= target.take(i as int).push(target[i as int]));
        }
        assert(target.take(ids.len() as int) =~= target);
        r
    }

    pub fn outputs(&self) -> (r: &Vec<Vec<TensorId>>)
        ensures
            nested(r@) == self.outs(),
    {
        &self.outputs
    }

    pub fn output_ids_for(&self, operation_id: OperationId) -> (r: &[TensorId])
        requires
            self.wf(),
            operation_id.0 < self.num_ops(),
        ensures
            r@ == self.outs()[operation_id.0 as int],
    {
        self.outputs[operation_id.0].as_slice()
    }

    pub fn outputs_for(&self, operation_id: OperationId) -> (r: Vec<Tensor>)
        requires
            self.wf(),
            operation_id.0 < self.num_ops(),
        ensures
            r@ == self.outs()[operation_id.0 as int].map_values(|t: TensorId| self.tensor_seq()[t.0 as int]),
    {
        let ids = &self.outputs[operation_id.0];
        let ghost target = self.outs()[operation_id.0 as int].map_values(|t: TensorId| self.tensor_seq()[t.0 as int]);
        let mut r: Vec<Tensor> = Vec::new();
        for i in 0..ids.len()
            invariant
                self.wf(),
                operation_id.0 < self.num_ops(),
                ids@ == self.outs()[operation_id.0 as int],
                target == ids@.map_values(|t: TensorId| self.tensor_seq()[t.0 as int]),
                r@ == target.take(i as int),
        {
            assert(self.outs()[operation_id.0 as int][i as int].0 < self.num_tensors());
            r.push(self.tensors[ids[i].0]);
            assert(target.take(i + 1) =~= target.take(i as int).push(target[i as int]));
        }
        assert(target.take(ids.len() as int) =~= target);
        r
    }

    pub fn producer(&self) -> (r: &Vec<Option<OperationId>>)
        ensures
            r@ == self.prods(),
    {
        &self.producer
    }

    pub fn producer_id_of(&self, tensor_id: TensorId) -> (r: Option<OperationId>)
        requires
            self.wf(),
        ensures
            r == self.producer_spec(tensor_id),
            r matches Some(o) ==> o.0 < self.num_ops(),
    {
        if tensor_id.0 < self.producer.len() {
            self.producer[tensor_id.0]
        } else {
            None
        }
    }

    /// The operation with id `id`.
    pub fn operation(&self, id: OperationId) -> (r: Operation)
        requires
            self.wf(),
            id.0 < self.num_ops(),
        ensures
            r == self.ops()[id.0 as int],
    {
        self.operations[id.0]
    }

    pub fn producer_of(&self, tensor_id: TensorId) -> (r: Option<Operation>)
        requires
            self.wf(),
        ensures
            r == match self.producer_spec(tensor_id) {
                Some(o) => Some(self.ops()[o.0 as int]),
                None => None,
            },
    {
        match self.producer_id_of(tensor_id) {
            Some(o) => Some(self.operations[o.0]),
            None => None,
        }
    }

    pub fn consumers(&self) -> (r: &Vec<Vec<OperationId>>)
        ensures
            nested(r@) == self.cons(),
    {
        &self.consumers
    }

    /// The consumers of `tensor_id`; none for a tensor that is not in the graph.
    pub fn consumer_ids_for(&self, tensor_id: TensorId) -> (r: &[OperationId])
        requires
            self.wf(),
        ensures
            r@ == if tensor_id.0 < self.num_tensors() {
                self.cons()[tensor_id.0 as int]
            } else {
                Seq::empty()
            },
    {
        if tensor_id.0 < self.consumers.len() {
            self.consumers[tensor_id.0].as_slice()
        } else {
            &[]
        }
    }

    pub fn consumers_for(&self, tensor_id: TensorId) -> (r: Vec<Operation>)
        requires
            self.wf(),
            tensor_id.0 < self.num_tensors(),
            self.cons()[tensor_id.0 as int].len() > 0,
        ensures
            r@ == self.cons()[tensor_id.0 as int].map_values(|o: OperationId| self.ops()[o.0 as int]),
    {
        let ids = &self.consumers[tensor_id.0];
        let ghost target = self.cons()[tensor_id.0 as int].map_values(|o: OperationId| self.ops()[o.0 as int]);
        let mut r: Vec<Operation> = Vec::new();
        for i in 0..ids.len()
            invariant
                self.wf(),
                tensor_id.0 < self.num_tensors(),
                ids@ == self.cons()[tensor_id.0 as int],
                target == ids@.map_values(|o: OperationId| self.ops()[o.0 as int]),
                r@ == target.take(i as int),
        {
            proof {
                lemma_consumer_list_bound(self.ins(), tensor_id, i as int);
            }
            r.push(self.operations[ids[i].0]);
            assert(target.take(i + 1) =~= target.take(i as int).push(target[i as int]));
        }
        assert(target.take(ids.len() as int) =~= target);
        r
    }

    /// The operations in an order in which, when the graph is acyclic, every
    /// producer comes before its consumers.
    pub fn topological_sort(&self) -> (r: &TopologicalOrder)
        ensures
            *r == self.topo(),
    {
        &self.topological_order
    }
}

/// An output `outs[a][i]` of `a` that `b` consumes makes an edge from `a` to `b`.
pub proof fn lemma_edge_from_tensor(g: &ComputationGraph, a: int, i: int, b: int)
    requires
        g.wf(),
        0 <= a < g.num_ops(),
        0 <= i < g.outs()[a].len(),
        0 <= b < g.num_ops(),
        g.ins()[b].contains(g.outs()[a][i]),
    ensures
        g.has_edge(a, b),
{
    let t = g.outs()[a][i];
    assert(t.0 < g.num_tensors());
    lemma_consumer_list_contains(g.ins(), t, b);
    let k = choose|k: int|
        0 <= k < consumer_list(g.ins(), t).len() && #[trigger] consumer_list(g.ins(), t)[k].0 == b;
    assert(g.cons()[t.0 as int] == consumer_list(g.ins(), TensorId(t.0)));
    assert(g.cons()[g.outs()[a][i].0 as int][k].0 == b);
}

/// An edge comes from an output of `a` that `b` consumes.
pub proof fn lemma_tensor_from_edge(g: &ComputationGraph, a: int, b: int) -> (i: int)
    requires
        g.wf(),
        g.has_edge(a, b),
    ensures
        0 <= a < g.num_ops(),
        0 <= b < g.num_ops(),
        0 <= i < g.outs()[a].len(),
        g.ins()[b].contains(g.outs()[a][i]),
{
    let (i, k) = choose|i: int, k: int|
        0 <= a < g.outs().len() && 0 <= i < g.outs()[a].len() && 0 <= g.outs()[a][i].0 < g.cons().len()
            && 0 <= k < g.cons()[g.outs()[a][i].0 as int].len()
            && #[trigger] g.cons()[g.outs()[a][i].0 as int][k].0 == b;
    let t = g.outs()[a][i];
    assert(g.cons()[t.0 as int] == consumer_list(g.ins(), TensorId(t.0)));
    lemma_consumer_list_contains(g.ins(), t, b);
    i
}

/// In an acyclic graph the producer of an input of `b` comes before `b`.
pub proof fn lemma_producer_before(g: &ComputationGraph, b: int, t: TensorId)
    requires
        g.wf(),
        g.is_acyclic(),
        0 <= b < g.num_ops(),
        g.ins()[b].contains(t),
        g.producer_spec(t) is Some,
    ensures
        g.pos(g.producer_spec(t).unwrap()) < g.pos(OperationId(b as usize)),
{
    let p = g.producer_spec(t).unwrap();
    assert(g.producer_is(t.0 as int, g.prods()[t.0 as int]));
    let i = choose|i: int| 0 <= i < g.outs()[p.0 as int].len() && g.outs()[p.0 as int][i] == TensorId(t.0);
    lemma_edge_from_tensor(g, p.0 as int, i, b);
}

impl TopologicalOrder {
    /// Position of `op` in the order.
    pub fn position_at(&self, op: OperationId) -> (r: usize)
        requires
            op.0 < self.position_seq().len(),
        ensures
            r == self.pos(op),
    {
        self.position[op.0]
    }

    pub fn order(&self) -> (r: &Vec<OperationId>)
        ensures
            r@ == self.order_seq(),
    {
        &self.order
    }

    pub fn len(&self) -> (r: usize)
        ensures
            r == self.order_seq().len(),
    {
        self.order.len()
    }

    /// The given operations sorted by their position in this order.
    pub fn sort(&self, ops: Vec<OperationId>) -> (r: Vec<OperationId>)
        requires
            forall|i: int| 0 <= i < ops.len() ==> (#[trigger] ops@[i]).0 < self.position_seq().len(),
        ensures
            r@.to_multiset() == ops@.to_multiset(),
            forall|i: int| 0 <= i < r.len() ==> (#[trigger] r@[i]).0 < self.position_seq().len(),
            forall|i: int, j: int| 0 <= i < j < r.len() ==> self.pos(r@[i]) <= self.pos(r@[j]),
    {
        let mut r: Vec<OperationId> = Vec::new();
        assert(r@ =~= ops@.take(0));
        for i in 0..ops.len()
            invariant
                forall|i: int| 0 <= i < ops.len() ==> (#[trigger] ops@[i]).0 < self.position_seq().len(),
                r@.to_multiset() == ops@.take(i as int).to_multiset(),
                forall|k: int| 0 <= k < r.len() ==> (#[trigger] r@[k]).0 < self.position_seq().len(),
                forall|a: int, b: int| 0 <= a < b < r.len() ==> self.pos(r@[a]) <= self.pos(r@[b]),
        {
            let x = ops[i];
            let px = self.position[x.0];
            let mut idx: usize = 0;
            while idx < r.len() && self.position[r[idx].0] <= px
                invariant
                    idx <= r.len(),
                    forall|k: int| 0 <= k < r.len() ==> (#[trigger] r@[k]).0 < self.position_seq().len(),
                    forall|k: int| 0 <= k < idx ==> self.pos(#[trigger] r@[k]) <= px,
                decreases r.len() - idx,
            {
                idx += 1;
            }
            let ghost r0 = r@;
            r.insert(idx, x);
            assert(ops@.take(i + 1) =~= ops@.take(i as int).push(x));
            assert(r@ == r0.insert(idx as int, x));
            proof {
                vstd::seq_lib::to_multiset_insert(r0, idx as int, x);
                vstd::seq_lib::to_multiset_build(ops@.take(i as int), x);
            }
            assert forall|a: int, b: int| 0 <= a < b < r.len() implies self.pos(r@[a]) <= self.pos(r@[b]) by {
                if idx < r0.len() {
                    assert(self.pos(r0[idx as int]) > px);
                }
                if b < idx {
                    assert(r@[a] == r0[a] && r@[b] == r0[b]);
                } else if b == idx {
                    assert(r@[a] == r0[a]);
                } else if a == idx {
                    assert(r@[b] == r0[b - 1]);
                } else if a < idx {
                    assert(r@[a] == r0[a] && r@[b] == r0[b - 1]);
                } else {
                    assert(r@[a] == r0[a - 1] && r@[b] == r0[b - 1]);
                }
            }
            assert forall|k: int| 0 <= k < r.len() implies (#[trigger] r@[k]).0 < self.position_seq().len() by {
                if k < idx {
                    assert(r@[k] == r0[k]);
                } else if k > idx {
                    assert(r@[k] == r0[k - 1]);
                }
            }
        }
        assert(ops@.take(ops.len() as int) =~= ops@);
        r
    }
}

} // verus!
