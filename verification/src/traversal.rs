use vstd::prelude::*;

use crate::graph::{Partition, Subgraph, TensorId};
use crate::subgraph::{count_true, lemma_count_true_set};
use crate::performance_model::out_tensor;
use crate::tiling::{ceil_div, dims_bounded, spec_ceil_div, MAX_DIM};

verus! {

/// Position `step` of grid row `m` in a snake over `cols` columns: left to
/// right on even rows, right to left on odd rows.
pub open spec fn snake_cell(m: int, step: int, cols: int) -> int {
    m * cols + if m % 2 == 0 {
        step
    } else {
        cols - 1 - step
    }
}

/// Row-major numbering is one to one: a cell `m * cols + n` with
/// `0 <= n < cols` determines its row and column.
proof fn lemma_row_major_unique(m1: int, n1: int, m2: int, n2: int, cols: int)
    requires
        cols >= 1,
        0 <= n1 < cols,
        0 <= n2 < cols,
        m1 >= 0,
        m2 >= 0,
        m1 * cols + n1 == m2 * cols + n2,
    ensures
        m1 == m2,
        n1 == n2,
{
    if m1 < m2 {
        assert(m1 * cols + cols <= m2 * cols) by (nonlinear_arith)
            requires
                m1 < m2,
                cols >= 1,
        ;
    } else if m2 < m1 {
        assert(m2 * cols + cols <= m1 * cols) by (nonlinear_arith)
            requires
                m2 < m1,
                cols >= 1,
        ;
    }
}

/// The snake visits every tile of a `rows` by `cols` grid exactly once: each
/// of its cells is a tile of the grid, and no two steps reach the same tile.
pub proof fn lemma_snake_is_permutation(rows: int, cols: int)
    requires
        rows >= 0,
        cols >= 1,
    ensures
        forall|m: int, s: int|
            0 <= m < rows && 0 <= s < cols ==> 0 <= #[trigger] snake_cell(m, s, cols) < rows * cols,
        forall|m1: int, s1: int, m2: int, s2: int|
            0 <= m1 < rows && 0 <= s1 < cols && 0 <= m2 < rows && 0 <= s2 < cols && #[trigger] snake_cell(m1, s1, cols)
                == #[trigger] snake_cell(m2, s2, cols) ==> m1 == m2 && s1 == s2,
{
    assert forall|m: int, s: int| 0 <= m < rows && 0 <= s < cols implies 0 <= #[trigger] snake_cell(m, s, cols) < rows
        * cols by {
        let n = if m % 2 == 0 { s } else { cols - 1 - s };
        assert(0 <= n < cols);
        assert(0 <= m * cols + n < rows * cols) by (nonlinear_arith)
            requires
                0 <= m < rows,
                0 <= n < cols,
        ;
    }
    assert forall|m1: int, s1: int, m2: int, s2: int|
        0 <= m1 < rows && 0 <= s1 < cols && 0 <= m2 < rows && 0 <= s2 < cols && #[trigger] snake_cell(m1, s1, cols)
            == #[trigger] snake_cell(m2, s2, cols) implies m1 == m2 && s1 == s2 by {
        let n1 = if m1 % 2 == 0 { s1 } else { cols - 1 - s1 };
        let n2 = if m2 % 2 == 0 { s2 } else { cols - 1 - s2 };
        lemma_row_major_unique(m1, n1, m2, n2, cols);
    }
}

/// The order of the spatial tiles of the subgraph's smallest-id output in a
/// The snake walks its grid cell by cell: consecutive visits within a row
/// are the neighbouring columns of that row, leftwards on odd rows and
/// rightwards on even ones, and the first visit of a row is the cell right
/// below the last visit of the row before. It starts at the top-left cell.
pub proof fn lemma_snake_adjacent(rows: int, cols: int)
    requires
        rows >= 1,
        cols >= 1,
    ensures
        snake_cell(0, 0, cols) == 0,
        forall|m: int, s: int|
            0 <= m < rows && 0 <= s < cols - 1 ==> #[trigger] snake_cell(m, s + 1, cols) - snake_cell(m, s, cols) == (if m
                % 2 == 0 {
                1int
            } else {
                -1int
            }),
        forall|m: int|
            0 <= m < rows - 1 ==> #[trigger] snake_cell(m + 1, 0, cols) == snake_cell(m, cols - 1, cols) + cols,
        forall|m: int, s: int|
            0 <= m < rows && 0 <= s < cols ==> m * cols <= #[trigger] snake_cell(m, s, cols) < m * cols + cols,
        forall|m: int, s: int|
            0 <= m < rows && 0 <= s < cols && m % 2 == 1 ==> #[trigger] snake_cell(m, s, cols) + snake_cell(
                m - 1,
                s,
                cols,
            ) == 2 * m * cols - 1,
{
    assert forall|m: int| 0 <= m < rows - 1 implies #[trigger] snake_cell(m + 1, 0, cols) == snake_cell(m, cols - 1, cols)
        + cols by {
        assert((m + 1) * cols == m * cols + cols) by (nonlinear_arith);
        assert((m + 1) % 2 == 0 <==> m % 2 == 1);
    }
    assert forall|m: int, s: int| 0 <= m < rows && 0 <= s < cols && m % 2 == 1 implies #[trigger] snake_cell(m, s, cols)
        + snake_cell(m - 1, s, cols) == 2 * m * cols - 1 by {
        assert((m - 1) * cols == m * cols - cols) by (nonlinear_arith);
        assert((m - 1) % 2 == 0);
        assert(2 * m * cols == m * cols + m * cols) by (nonlinear_arith);
    }
}

/// snake over its grid of `ceil(height / tile.0)` rows and
/// `ceil(width / tile.1)` columns, tiles numbered row-major. `None` when the
/// grid has fewer than two rows or columns, where the snake is the raster
/// order.
pub fn snake_traversal(subgraph: &Subgraph, tile_size: (i64, i64, i64)) -> (r: Option<Vec<i64>>)
    requires
        subgraph.wf(),
        dims_bounded(subgraph.graph()),
        subgraph.output_seq().len() > 0,
        1 <= tile_size.0 <= MAX_DIM,
        1 <= tile_size.1 <= MAX_DIM,
    ensures
        ({
            let t = out_tensor(*subgraph, 0);
            let rows = spec_ceil_div(t.height as int, tile_size.0 as int);
            let cols = spec_ceil_div(t.width as int, tile_size.1 as int);
            &&& (rows < 2 || cols < 2) ==> r is None
            &&& !(rows < 2 || cols < 2) ==> (r matches Some(v) && v.len() == rows * cols && forall|m: int, s: int|
                0 <= m < rows && 0 <= s < cols ==> #[trigger] v@[m * cols + s] == snake_cell(m, s, cols))
            &&& !(rows < 2 || cols < 2) ==> (r matches Some(v) && forall|m: int, s: int|
                0 <= m < rows && 0 <= s < cols ==> (m % 2 == 0 ==> #[trigger] v@[m * cols + s] == m * cols + s) && (m % 2
                    == 1 ==> v@[m * cols + s] == m * cols + (cols - 1 - s)))
        }),
{
    let graph = subgraph.parent();
    let outputs = subgraph.output_tensor_ids();
    let output_id = outputs[0];
    proof {
        assert(outputs@.contains(output_id));
    }
    let output = graph.tensors()[output_id.0];
    assert(output == out_tensor(*subgraph, 0));
    let (tile_h, tile_w, _) = tile_size;
    let rows = ceil_div(output.height, tile_h);
    let cols = ceil_div(output.width, tile_w);
    if rows < 2 || cols < 2 {
        return None;
    }
    let mut order: Vec<i64> = Vec::new();
    let mut m: i64 = 0;
    while m < rows
        invariant
            2 <= rows <= MAX_DIM,
            2 <= cols <= MAX_DIM,
            0 <= m <= rows,
            order.len() == m * cols,
            forall|a: int, s: int| 0 <= a < m && 0 <= s < cols ==> #[trigger] order@[a * cols + s] == snake_cell(a, s, cols as int),
        decreases rows - m,
    {
        let mut step: i64 = 0;
        while step < cols
            invariant
                2 <= rows <= MAX_DIM,
                2 <= cols <= MAX_DIM,
                0 <= m < rows,
                0 <= step <= cols,
                order.len() == m * cols + step,
                forall|a: int, s: int|
                    0 <= a < m && 0 <= s < cols ==> #[trigger] order@[a * cols + s] == snake_cell(a, s, cols as int),
                forall|s: int| 0 <= s < step ==> #[trigger] order@[m * cols + s] == snake_cell(m as int, s, cols as int),
            decreases cols - step,
        {
            let n = if m % 2 == 0 {
                step
            } else {
                cols - 1 - step
            };
            assert(0 <= m * cols + n < MAX_DIM * MAX_DIM) by (nonlinear_arith)
                requires
                    0 <= m < rows <= MAX_DIM,
                    2 <= cols <= MAX_DIM,
                    0 <= n < cols,
            ;
            let ghost o0 = order@;
            order.push(m * cols + n);
            proof {
                assert forall|a: int, s: int| 0 <= a < m && 0 <= s < cols implies #[trigger] order@[a * cols + s]
                    == snake_cell(a, s, cols as int) by {
                    assert(a * cols + s < m * cols) by (nonlinear_arith)
                        requires
                            0 <= a < m,
                            0 <= s < cols,
                    ;
                    assert(order@[a * cols + s] == o0[a * cols + s]);
                }
                assert forall|s: int| 0 <= s < step + 1 implies #[trigger] order@[m * cols + s] == snake_cell(
                    m as int,
                    s,
                    cols as int,
                ) by {
                    if s < step {
                        assert(order@[m * cols + s] == o0[m * cols + s]);
                    }
                }
            }
            step = step + 1;
        }
        proof {
            assert(m * cols + cols == (m + 1) * cols) by (nonlinear_arith);
            assert forall|a: int, s: int| 0 <= a < m + 1 && 0 <= s < cols implies #[trigger] order@[a * cols + s]
                == snake_cell(a, s, cols as int) by {
                if a == m {
                    assert(order@[m * cols + s] == snake_cell(m as int, s, cols as int));
                }
            }
        }
        m = m + 1;
    }
    Some(order)
}

/// Subgraph `j` consumes a tensor that subgraph `p`, another one, produces.
pub open spec fn feeds(subs: Seq<Subgraph>, p: int, j: int) -> bool {
    &&& p != j
    &&& exists|t: TensorId| #[trigger] subs[p].is_output_tensor(t) && subs[j].is_input_tensor(t)
}

/// `order` lists each of `0..n` once.
pub open spec fn is_permutation(order: Seq<usize>, n: nat) -> bool {
    &&& order.len() == n
    &&& forall|a: int| 0 <= a < order.len() ==> (#[trigger] order[a]) < n
    &&& forall|a: int, b: int| 0 <= a < b < order.len() ==> order[a] != order[b]
}

/// Number of entries of `l` whose flag in `done` is not set.
pub open spec fn count_pending(l: Seq<usize>, done: Seq<bool>) -> nat
    decreases l.len(),
{
    if l.len() == 0 {
        0
    } else {
        count_pending(l.drop_last(), done) + if done[l.last() as int] {
            0nat
        } else {
            1nat
        }
    }
}

proof fn lemma_count_pending_zero(l: Seq<usize>, done: Seq<bool>)
    requires
        forall|k: int| 0 <= k < l.len() ==> (#[trigger] l[k]) < done.len(),
    ensures
        count_pending(l, done) == 0 <==> forall|k: int| 0 <= k < l.len() ==> done[#[trigger] l[k] as int],
    decreases l.len(),
{
    if l.len() > 0 {
        lemma_count_pending_zero(l.drop_last(), done);
        assert(l.last() == l[l.len() - 1]);
        assert forall|k: int| 0 <= k < l.len() - 1 implies l.drop_last()[k] == l[k] by {}
    }
}

proof fn lemma_count_pending_set(l: Seq<usize>, done: Seq<bool>, i: usize)
    requires
        i < done.len(),
        !done[i as int],
        l.no_duplicates(),
        forall|k: int| 0 <= k < l.len() ==> (#[trigger] l[k]) < done.len(),
    ensures
        count_pending(l, done.update(i as int, true)) == count_pending(l, done) - if l.contains(i) {
            1int
        } else {
            0int
        },
    decreases l.len(),
{
    if l.len() > 0 {
        let d = l.drop_last();
        assert(d.no_duplicates());
        assert forall|k: int| 0 <= k < d.len() implies (#[trigger] d[k]) < done.len() by {
            assert(d[k] == l[k]);
        }
        lemma_count_pending_set(d, done, i);
        assert(l.last() == l[l.len() - 1]);
        if l.contains(i) {
            let k = choose|k: int| 0 <= k < l.len() && l[k] == i;
            if k < l.len() - 1 {
                assert(d[k] == i);
                assert(l.last() != i);
            } else {
                assert(!d.contains(i)) by {
                    if d.contains(i) {
                        let q = choose|q: int| 0 <= q < d.len() && d[q] == i;
                        assert(l[q] == l[l.len() - 1]);
                    }
                }
            }
        } else {
            assert(!d.contains(i)) by {
                if d.contains(i) {
                    let q = choose|q: int| 0 <= q < d.len() && d[q] == i;
                    assert(l[q] == i);
                }
            }
            assert(l.last() != i);
        }
    }
}

/// `s.push(x)` holds `y` exactly when `s` does or `x` is `y`.
pub(crate) proof fn lemma_push_has<A>(s: Seq<A>, x: A, y: A)
    ensures
        s.push(x).contains(y) <==> s.contains(y) || x == y,
{
    let t = s.push(x);
    if t.contains(y) {
        let k = choose|k: int| 0 <= k < t.len() && t[k] == y;
        if k < s.len() {
            assert(s[k] == y);
        }
    }
    if s.contains(y) {
        let k = choose|k: int| 0 <= k < s.len() && s[k] == y;
        assert(t[k] == y);
    }
    if x == y {
        assert(t[s.len() as int] == y);
    }
}

/// An order of the subgraphs in which every subgraph comes after the
/// subgraphs that produce tensors it consumes (Kahn's algorithm); `None` when
/// the subgraphs depend on each other in a cycle.
#[verifier::spinoff_prover]
#[verifier::rlimit(40)]
pub fn subgraph_order(subs: &Vec<Subgraph>) -> (r: Option<Vec<usize>>)
    requires
        forall|k: int| 0 <= k < subs.len() ==> (#[trigger] subs@[k]).wf(),
    ensures
        r matches Some(order) ==> is_permutation(order@, subs.len() as nat) && respects_feeds(subs@, order@),
        r is None ==> forall|o: Seq<usize>| #[trigger] is_permutation(o, subs.len() as nat) ==> !respects_feeds(subs@, o),
{
    let n = subs.len();
    let ghost sv = subs@;
    let mut outs: Vec<Vec<TensorId>> = Vec::new();
    for i in 0..n
        invariant
            n == subs.len(),
            sv == subs@,
            forall|k: int| 0 <= k < n ==> (#[trigger] subs@[k]).wf(),
            outs.len() == i,
            forall|k: int| 0 <= k < i ==> forall|t: TensorId| (#[trigger] outs@[k])@.contains(t) <==> sv[k].is_output_tensor(t),
    {
        outs.push(subs[i].output_tensor_ids());
    }
    let mut preds: Vec<Vec<usize>> = Vec::new();
    for j in 0..n
        invariant
            n == subs.len(),
            sv == subs@,
            forall|k: int| 0 <= k < n ==> (#[trigger] subs@[k]).wf(),
            outs.len() == n,
            forall|k: int| 0 <= k < n ==> forall|t: TensorId| (#[trigger] outs@[k])@.contains(t) <==> sv[k].is_output_tensor(t),
            preds.len() == j,
            forall|q: int| 0 <= q < j ==> (#[trigger] preds@[q])@.no_duplicates(),
            forall|q: int, k: int| 0 <= q < j && 0 <= k < preds@[q].len() ==> (#[trigger] preds@[q]@[k]) < n,
            forall|q: int, p: int| 0 <= q < j && 0 <= p < n ==> (#[trigger] preds@[q]@.contains(p as usize) <==> feeds(sv, p, q)),
    {
        let ins = subs[j].input_tensor_ids();
        let mut pj: Vec<usize> = Vec::new();
        for p in 0..n
            invariant
                n == subs.len(),
                sv == subs@,
                0 <= j < n,
                outs.len() == n,
                forall|k: int| 0 <= k < n ==> forall|t: TensorId| (#[trigger] outs@[k])@.contains(t) <==> sv[k].is_output_tensor(t),
                forall|t: TensorId| ins@.contains(t) <==> sv[j as int].is_input_tensor(t),
                pj@.no_duplicates(),
                forall|k: int| 0 <= k < pj.len() ==> (#[trigger] pj@[k]) < p,
                forall|x: int| 0 <= x < p ==> (pj@.contains(x as usize) <==> feeds(sv, x, j as int)),
        {
            if p != j {
                let mut shared = false;
                for q in 0..ins.len()
                    invariant
                        0 <= p < n,
                        outs.len() == n,
                        shared ==> exists|t: TensorId| (#[trigger] outs@[p as int])@.contains(t) && ins@.contains(t),
                        !shared ==> forall|m: int| 0 <= m < q ==> !outs@[p as int]@.contains(#[trigger] ins@[m]),
                {
                    if crate::subgraph::contains_tensor(&outs[p], ins[q]) {
                        assert(ins@.contains(ins@[q as int]));
                        shared = true;
                    }
                }
                proof {
                    if shared {
                        let t = choose|t: TensorId| (#[trigger] outs@[p as int])@.contains(t) && ins@.contains(t);
                        assert(sv[p as int].is_output_tensor(t) && sv[j as int].is_input_tensor(t));
                    } else {
                        if feeds(sv, p as int, j as int) {
                            let t = choose|t: TensorId| #[trigger] sv[p as int].is_output_tensor(t) && sv[j as int].is_input_tensor(t);
                            assert(ins@.contains(t));
                            let m = choose|m: int| 0 <= m < ins.len() && ins@[m] == t;
                            assert(outs@[p as int]@.contains(ins@[m]));
                        }
                    }
                }
                if shared {
                    let ghost pj0 = pj@;
                    pj.push(p);
                    proof {
                        assert forall|a: int, b: int| 0 <= a < b < pj.len() implies pj@[a] != pj@[b] by {
                            if b == pj.len() - 1 {
                                assert(pj@[a] == pj0[a]);
                            } else {
                                assert(pj@[a] == pj0[a] && pj@[b] == pj0[b]);
                            }
                        }
                        assert forall|x: int| 0 <= x < p + 1 implies (pj@.contains(x as usize) <==> feeds(sv, x, j as int)) by {
                            if pj@.contains(x as usize) && x != p {
                                let k = choose|k: int| 0 <= k < pj.len() && pj@[k] == x as usize;
                                assert(pj0[k] == x as usize);
                            }
                            if x < p && pj0.contains(x as usize) {
                                let k = choose|k: int| 0 <= k < pj0.len() && pj0[k] == x as usize;
                                assert(pj@[k] == x as usize);
                            }
                            if x == p {
                                assert(pj@[pj.len() - 1] == p);
                            }
                        }
                    }
                }
            }
        }
        preds.push(pj);
    }
    let mut succs: Vec<Vec<usize>> = Vec::new();
    for p in 0..n
        invariant
            preds.len() == n,
            forall|q: int, k: int| 0 <= q < n && 0 <= k < preds@[q].len() ==> (#[trigger] preds@[q]@[k]) < n,
            succs.len() == p,
            forall|x: int, k: int| 0 <= x < p && 0 <= k < succs@[x].len() ==> (#[trigger] succs@[x]@[k]) < n,
            forall|x: int, q: int| 0 <= x < p && 0 <= q < n ==> (#[trigger] succs@[x]@.contains(q as usize) <==> preds@[q]@.contains(x as usize)),
            forall|x: int| 0 <= x < p ==> (#[trigger] succs@[x])@.no_duplicates(),
    {
        let mut sp: Vec<usize> = Vec::new();
        for q in 0..n
            invariant
                preds.len() == n,
                0 <= p < n,
                forall|k: int| 0 <= k < sp.len() ==> (#[trigger] sp@[k]) < q,
                forall|a: int, b: int| 0 <= a < b < sp.len() ==> sp@[a] < sp@[b],
                forall|y: int| 0 <= y < q ==> (sp@.contains(y as usize) <==> preds@[y]@.contains(p as usize)),
        {
            let mut found = false;
            let pq = &preds[q];
            for k in 0..pq.len()
                invariant
                    preds.len() == n,
                    0 <= q < n,
                    *pq == preds@[q as int],
                    found == preds@[q as int]@.take(k as int).contains(p),
            {
                proof {
                    assert(preds@[q as int]@.take(k + 1) =~= preds@[q as int]@.take(k as int).push(preds@[q as int]@[k as int]));
                    lemma_push_has(preds@[q as int]@.take(k as int), preds@[q as int]@[k as int], p);
                }
                if pq[k] == p {
                    found = true;
                }
            }
            assert(preds@[q as int]@.take(preds@[q as int].len() as int) =~= preds@[q as int]@);
            let ghost sp0 = sp@;
            if found {
                sp.push(q);
            }
            proof {
                assert forall|y: int| 0 <= y < q + 1 implies (sp@.contains(y as usize) <==> preds@[y]@.contains(p as usize)) by {
                    if sp@.contains(y as usize) && y != q {
                        let k = choose|k: int| 0 <= k < sp.len() && sp@[k] == y as usize;
                        assert(sp0[k] == y as usize);
                    }
                    if y < q && sp0.contains(y as usize) {
                        let k = choose|k: int| 0 <= k < sp0.len() && sp0[k] == y as usize;
                        assert(sp@[k] == y as usize);
                    }
                    if y == q && found {
                        assert(sp@[sp.len() - 1] == q);
                    }
                }
            }
        }
        proof {
            assert forall|a: int, b: int| 0 <= a < sp.len() && 0 <= b < sp.len() && a != b implies sp@[a] != sp@[b] by {
                if a < b {
                    assert(sp@[a] < sp@[b]);
                } else {
                    assert(sp@[b] < sp@[a]);
                }
            }
        }
        succs.push(sp);
    }
    let mut in_degree: Vec<usize> = Vec::new();
    let mut done: Vec<bool> = Vec::new();
    let mut queued: Vec<bool> = Vec::new();
    for j in 0..n
        invariant
            preds.len() == n,
            in_degree.len() == j,
            done.len() == j,
            queued.len() == j,
            forall|x: int| 0 <= x < j ==> !done@[x] && !queued@[x],
            forall|x: int| 0 <= x < j ==> in_degree@[x] == preds@[x].len(),
    {
        in_degree.push(preds[j].len());
        done.push(false);
        queued.push(false);
    }
    let mut queue: Vec<usize> = Vec::new();
    proof {
        assert forall|x: int| 0 <= x < n implies in_degree@[x] == count_pending(preds@[x]@, done@) by {
            lemma_count_pending_all(preds@[x]@, done@);
        }
    }
    for j in 0..n
        invariant
            preds.len() == n,
            in_degree.len() == n,
            done.len() == n,
            queued.len() == n,
            forall|x: int| 0 <= x < n ==> !(#[trigger] done@[x]),
            forall|q: int, k: int| 0 <= q < n && 0 <= k < preds@[q].len() ==> (#[trigger] preds@[q]@[k]) < n,
            forall|x: int| 0 <= x < n ==> (#[trigger] in_degree@[x]) == count_pending(preds@[x]@, done@),
            forall|x: int| 0 <= x < n ==> (#[trigger] queued@[x] <==> (x < j && in_degree@[x] == 0)),
            forall|k: int| 0 <= k < queue.len() ==> (#[trigger] queue@[k]) < j && queued@[queue@[k] as int],
            forall|a: int, b: int| 0 <= a < b < queue.len() ==> queue@[a] < queue@[b],
            forall|x: int| 0 <= x < j && queued@[x] ==> queue@.contains(x as usize),
    {
        if in_degree[j] == 0 {
            let ghost q0 = queue@;
            queue.push(j);
            queued.set(j, true);
            proof {
                assert forall|x: int| 0 <= x < j + 1 && queued@[x] implies queue@.contains(x as usize) by {
                    if x < j {
                        let k = choose|k: int| 0 <= k < q0.len() && q0[k] == x as usize;
                        assert(queue@[k] == x as usize);
                    } else {
                        assert(queue@[queue.len() - 1] == j);
                    }
                }
            }
        }
    }
    let mut order: Vec<usize> = Vec::new();
    proof {
        assert forall|x: int| 0 <= x < n && queued@[x] implies count_pending(preds@[x]@, done@) == 0 by {}
        lemma_count_true_zero(done@);
    }
    while queue.len() > 0
        invariant
            n == subs.len(),
            sv == subs@,
            preds.len() == n,
            succs.len() == n,
            in_degree.len() == n,
            done.len() == n,
            queued.len() == n,
            forall|q: int| 0 <= q < n ==> (#[trigger] preds@[q])@.no_duplicates(),
            forall|q: int, k: int| 0 <= q < n && 0 <= k < preds@[q].len() ==> (#[trigger] preds@[q]@[k]) < n,
            forall|q: int, p: int| 0 <= q < n && 0 <= p < n ==> (#[trigger] preds@[q]@.contains(p as usize) <==> feeds(sv, p, q)),
            forall|x: int, k: int| 0 <= x < n && 0 <= k < succs@[x].len() ==> (#[trigger] succs@[x]@[k]) < n,
            forall|x: int| 0 <= x < n ==> (#[trigger] succs@[x])@.no_duplicates(),
            forall|x: int, q: int| 0 <= x < n && 0 <= q < n ==> (#[trigger] succs@[x]@.contains(q as usize) <==> preds@[q]@.contains(x as usize)),
            forall|x: int| 0 <= x < n ==> (#[trigger] in_degree@[x]) == count_pending(preds@[x]@, done@),
            forall|x: int| 0 <= x < n && #[trigger] queued@[x] ==> count_pending(preds@[x]@, done@) == 0,
            forall|x: int| 0 <= x < n && #[trigger] done@[x] ==> queued@[x],
            forall|k: int| 0 <= k < queue.len() ==> (#[trigger] queue@[k]) < n && queued@[queue@[k] as int] && !done@[queue@[k] as int],
            forall|a: int, b: int| 0 <= a < b < queue.len() ==> queue@[a] != queue@[b],
            forall|k: int| 0 <= k < order.len() ==> (#[trigger] order@[k]) < n && done@[order@[k] as int],
            forall|a: int, b: int| 0 <= a < b < order.len() ==> order@[a] != order@[b],
            forall|x: int| 0 <= x < n && #[trigger] done@[x] ==> order@.contains(x as usize),
            count_true(done@) == order.len(),
            forall|a: int, b: int|
                0 <= a < order.len() && 0 <= b < order.len() && feeds(sv, order@[b] as int, order@[a] as int) ==> b < a,
            forall|x: int| 0 <= x < n && #[trigger] count_pending(preds@[x]@, done@) == 0 ==> queued@[x],
            forall|x: int| 0 <= x < n && #[trigger] queued@[x] && !done@[x] ==> queue@.contains(x as usize),
        decreases n - count_true(done@), queue.len(),
    {
        let ghost qu0 = queue@;
        let i = queue.pop().unwrap();
        proof {
            assert(i == qu0[qu0.len() - 1]);
            assert forall|k: int| 0 <= k < queue.len() implies queue@[k] != i by {
                assert(queue@[k] == qu0[k]);
            }
            lemma_count_true_set(done@, i as int);
            assert(count_pending(preds@[i as int]@, done@) == 0);
            lemma_count_pending_zero(preds@[i as int]@, done@);
        }
        let ghost d0 = done@;
        let ghost o0 = order@;
        done.set(i, true);
        order.push(i);
        proof {
            assert forall|a: int, b: int|
                0 <= a < order.len() && 0 <= b < order.len() && feeds(sv, order@[b] as int, order@[a] as int) implies b < a by {
                if a == order.len() - 1 && b < a {
                } else if a == order.len() - 1 && b == a {
                    assert(!feeds(sv, i as int, i as int));
                } else if b == order.len() - 1 {
                    assert(order@[a] == o0[a]);
                    assert(d0[o0[a] as int]);
                    assert(queued@[o0[a] as int]);
                    assert(preds@[o0[a] as int]@.contains(i as usize));
                    lemma_count_pending_zero(preds@[o0[a] as int]@, d0);
                    let k = choose|k: int| 0 <= k < preds@[o0[a] as int].len() && preds@[o0[a] as int]@[k] == i;
                    assert(d0[preds@[o0[a] as int]@[k] as int]);
                } else {
                    assert(order@[a] == o0[a] && order@[b] == o0[b]);
                }
            }
            assert forall|a: int, b: int| 0 <= a < b < order.len() implies order@[a] != order@[b] by {
                if b == order.len() - 1 {
                    assert(order@[a] == o0[a]);
                    assert(d0[o0[a] as int]);
                } else {
                    assert(order@[a] == o0[a] && order@[b] == o0[b]);
                }
            }
            assert forall|x: int| 0 <= x < n && #[trigger] done@[x] implies order@.contains(x as usize) by {
                if x == i {
                    assert(order@[order.len() - 1] == i);
                } else {
                    let k = choose|k: int| 0 <= k < o0.len() && o0[k] == x as usize;
                    assert(order@[k] == x as usize);
                }
            }
            assert forall|x: int| 0 <= x < n implies count_pending(preds@[x]@, done@) == count_pending(preds@[x]@, d0)
                - if preds@[x]@.contains(i) { 1int } else { 0int } by {
                lemma_count_pending_set(preds@[x]@, d0, i);
                assert(done@ == d0.update(i as int, true));
            }
        }
        let si = &succs[i];
        proof {
            assert forall|q: usize| q < n implies (#[trigger] si@.contains(q) <==> preds@[q as int]@.contains(i)) by {
                assert(succs@[i as int]@.contains((q as int) as usize) <==> preds@[q as int]@.contains((i as int) as usize));
            }
            assert(si@.take(0) =~= Seq::<usize>::empty());
            assert forall|x: int|
                0 <= x < n && #[trigger] count_pending(preds@[x]@, done@) == 0 && !(preds@[x]@.contains(i)
                    && !si@.take(0).contains(x as usize)) implies queued@[x] by {
                if x != i as int {
                    assert(count_pending(preds@[x]@, d0) == 0);
                }
            }
            assert forall|x: int| 0 <= x < n && #[trigger] queued@[x] && !done@[x] implies queue@.contains(x as usize) by {
                assert(x != i as int);
                assert(done@[x] == d0[x]);
                assert(qu0.contains(x as usize));
                let m = choose|m: int| 0 <= m < qu0.len() && qu0[m] == x as usize;
                assert(m != qu0.len() - 1);
                assert(queue@[m] == x as usize);
            }
        }
        for k in 0..si.len()
            invariant
                n == subs.len(),
                preds.len() == n,
                succs.len() == n,
                in_degree.len() == n,
                done.len() == n,
                queued.len() == n,
                i < n,
                *si == succs@[i as int],
                done@[i as int],
                forall|q: int, k: int| 0 <= q < n && 0 <= k < preds@[q].len() ==> (#[trigger] preds@[q]@[k]) < n,
                forall|x: int, k: int| 0 <= x < n && 0 <= k < succs@[x].len() ==> (#[trigger] succs@[x]@[k]) < n,
                si@.no_duplicates(),
                forall|q: usize| q < n ==> (#[trigger] si@.contains(q) <==> preds@[q as int]@.contains(i)),
                forall|x: int| 0 <= x < n ==> (#[trigger] in_degree@[x]) == count_pending(preds@[x]@, done@) + if preds@[x]@.contains(i)
                    && !si@.take(k as int).contains(x as usize) { 1int } else { 0int },
                forall|x: int| 0 <= x < n && #[trigger] queued@[x] ==> count_pending(preds@[x]@, done@) == 0,
                forall|x: int| 0 <= x < n && #[trigger] queued@[x] && preds@[x]@.contains(i) ==> si@.take(k as int).contains(x as usize),
                forall|x: int| 0 <= x < n && #[trigger] done@[x] ==> queued@[x],
                forall|k: int| 0 <= k < queue.len() ==> (#[trigger] queue@[k]) < n && queued@[queue@[k] as int] && !done@[queue@[k] as int],
                forall|a: int, b: int| 0 <= a < b < queue.len() ==> queue@[a] != queue@[b],
                forall|x: int|
                    0 <= x < n && #[trigger] count_pending(preds@[x]@, done@) == 0 && !(preds@[x]@.contains(i)
                        && !si@.take(k as int).contains(x as usize)) ==> queued@[x],
                forall|x: int| 0 <= x < n && #[trigger] queued@[x] && !done@[x] ==> queue@.contains(x as usize),
        {
            let j = si[k];
            proof {
                assert(succs@[i as int]@[k as int] < n);
                assert(j < n);
                assert(si@.contains(j));
                assert(preds@[j as int]@.contains(i));
                assert(!si@.take(k as int).contains(j)) by {
                    if si@.take(k as int).contains(j) {
                        let m = choose|m: int| 0 <= m < k && si@[m] == j;
                        assert(si@[m] == si@[k as int]);
                    }
                }
                assert(si@.take(k + 1) =~= si@.take(k as int).push(j));
            }
            let ghost id0 = in_degree@;
            in_degree.set(j, in_degree[j] - 1);
            proof {
                assert forall|x: int| 0 <= x < n implies (#[trigger] in_degree@[x]) == count_pending(preds@[x]@, done@) + if preds@[x]@.contains(i)
                    && !si@.take(k + 1).contains(x as usize) { 1int } else { 0int } by {
                    lemma_push_has(si@.take(k as int), j, x as usize);
                    if x != j {
                        assert(in_degree@[x] == id0[x]);
                    }
                }
                assert forall|x: int| 0 <= x < n && #[trigger] queued@[x] && preds@[x]@.contains(i) implies si@.take(k + 1).contains(x as usize) by {
                    lemma_push_has(si@.take(k as int), j, x as usize);
                }
            }
            let ghost qd0 = queued@;
            let ghost qq0 = queue@;
            if in_degree[j] == 0 {
                proof {
                    assert(!queued@[j as int]);
                }
                let ghost qu1 = queue@;
                queue.push(j);
                queued.set(j, true);
                proof {
                    assert forall|a: int, b: int| 0 <= a < b < queue.len() implies queue@[a] != queue@[b] by {
                        if b == queue.len() - 1 {
                            assert(queue@[a] == qu1[a]);
                            assert(queued@[qu1[a] as int]);
                        } else {
                            assert(queue@[a] == qu1[a] && queue@[b] == qu1[b]);
                        }
                    }
                }
            }
            proof {
                assert forall|x: int|
                    0 <= x < n && #[trigger] count_pending(preds@[x]@, done@) == 0 && !(preds@[x]@.contains(i)
                        && !si@.take(k + 1).contains(x as usize)) implies queued@[x] by {
                    lemma_push_has(si@.take(k as int), j, x as usize);
                    if x != j as int {
                        assert(qd0[x]);
                    }
                }
                assert forall|x: int| 0 <= x < n && #[trigger] queued@[x] && !done@[x] implies queue@.contains(x as usize) by {
                    if qd0[x] {
                        assert(qq0.contains(x as usize));
                        let m = choose|m: int| 0 <= m < qq0.len() && qq0[m] == x as usize;
                        assert(queue@[m] == x as usize);
                    } else {
                        assert(x == j as int);
                        assert(queue@[queue.len() - 1] == j);
                    }
                }
            }
        }
        proof {
            assert(si@.take(si.len() as int) =~= si@);
            assert forall|x: int| 0 <= x < n && #[trigger] count_pending(preds@[x]@, done@) == 0 implies queued@[x] by {
                if preds@[x]@.contains(i) {
                    assert(si@.contains(x as usize));
                }
            }
        }
    }
    if order.len() == n {
        Some(order)
    } else {
        proof {
            crate::subgraph::lemma_count_true_le(done@);
            assert forall|y: int| 0 <= y < n && !done@[y] implies count_pending(preds@[y]@, done@) != 0 by {
                if count_pending(preds@[y]@, done@) == 0 {
                    assert(queued@[y]);
                    assert(queue@.contains(y as usize));
                }
            }
            let rel = |p: int, q: int| feeds(sv, p, q);
            let pv = preds@.map_values(|v: Vec<usize>| v@);
            assert forall|q: int, p: int| 0 <= q < n && 0 <= p < n implies (#[trigger] pv[q].contains(p as usize) <==> rel(p, q)) by {
                assert(pv[q] == preds@[q]@);
            }
            assert forall|q: int, k: int| 0 <= q < n && 0 <= k < pv[q].len() implies (#[trigger] pv[q][k]) < n by {
                assert(pv[q] == preds@[q]@);
            }
            assert forall|y: int| 0 <= y < n && !done@[y] implies count_pending(pv[y], done@) != 0 by {
                assert(pv[y] == preds@[y]@);
            }
            assert(preds_match(n as nat, rel, pv)) by {
                reveal(preds_match);
            }
            lemma_no_order(n as nat, rel, pv, done@, order.len() as nat);
            assert forall|o: Seq<usize>| #[trigger] is_permutation(o, n as nat) implies !respects_feeds(sv, o) by {
                assert(respects_feeds(sv, o) == respects_rel(o, rel));
            }
        }
        None
    }
}

/// `preds[q]` lists, below `n`, exactly the items related to `q` by `rel`.
#[verifier::opaque]
spec fn preds_match(n: nat, rel: spec_fn(int, int) -> bool, preds: Seq<Seq<usize>>) -> bool {
    &&& preds.len() == n
    &&& forall|q: int, p: int| 0 <= q < n && 0 <= p < n ==> (#[trigger] preds[q].contains(p as usize) <==> rel(p, q))
    &&& forall|q: int, k: int| 0 <= q < n && 0 <= k < preds[q].len() ==> (#[trigger] preds[q][k]) < n
}

/// When fewer of `n` items are finished than there are, and every unfinished
/// one still waits for an unfinished item related to it by `rel`, no order
/// of the items puts every item after those related to it.
#[verifier::spinoff_prover]
proof fn lemma_no_order(n: nat, rel: spec_fn(int, int) -> bool, preds: Seq<Seq<usize>>, done: Seq<bool>, c: nat)
    requires
        preds.len() == n,
        done.len() == n,
        n <= usize::MAX,
        count_true(done) == c,
        c < n,
        preds_match(n, rel, preds),
        forall|y: int| 0 <= y < n && !done[y] ==> count_pending(preds[y], done) != 0,
    ensures
        forall|o: Seq<usize>| #[trigger] is_permutation(o, n) ==> !respects_rel(o, rel),
{
    lemma_some_unset(done, c);
    let x = choose|x: int| 0 <= x < n && !done[x];
    assert forall|y: int| 0 <= y < n && !done[y] implies exists|k: int|
        0 <= k < preds[y].len() && !done[#[trigger] preds[y][k] as int] by {
        reveal(preds_match);
        lemma_waiting(preds[y], done, n);
    }
    assert forall|o: Seq<usize>| #[trigger] is_permutation(o, n) implies !respects_rel(o, rel) by {
        if respects_rel(o, rel) {
            lemma_prefix_done(n, rel, preds, done, o, n as int);
            lemma_permutation_onto(o, n, x as usize);
            let a = choose|a: int| 0 <= a < n && o[a] == x as usize;
        }
    }
}

/// A list with pending entries holds an entry whose flag is unset.
proof fn lemma_waiting(l: Seq<usize>, done: Seq<bool>, n: nat)
    requires
        done.len() == n,
        forall|k: int| 0 <= k < l.len() ==> (#[trigger] l[k]) < n,
        count_pending(l, done) != 0,
    ensures
        exists|k: int| 0 <= k < l.len() && !done[#[trigger] l[k] as int],
{
    lemma_count_pending_zero(l, done);
}

/// `order` lists every item after the items related to it by `rel`.
pub open spec fn respects_rel(order: Seq<usize>, rel: spec_fn(int, int) -> bool) -> bool {
    forall|a: int, b: int| 0 <= a < order.len() && 0 <= b < order.len() && rel(order[b] as int, order[a] as int) ==> b < a
}

/// `order` lists every subgraph after the subgraphs that feed it.
pub open spec fn respects_feeds(subs: Seq<Subgraph>, order: Seq<usize>) -> bool {
    forall|a: int, b: int|
        0 <= a < order.len() && 0 <= b < order.len() && feeds(subs, order[b] as int, order[a] as int) ==> b < a
}

/// Fewer set flags than entries: some flag is unset.
proof fn lemma_some_unset(s: Seq<bool>, c: nat)
    requires
        count_true(s) == c,
        c < s.len(),
    ensures
        exists|x: int| 0 <= x < s.len() && !s[x],
    decreases s.len(),
{
    if s.last() {
        assert(count_true(s.drop_last()) == c - 1);
        lemma_some_unset(s.drop_last(), (c - 1) as nat);
        let x = choose|x: int| 0 <= x < s.drop_last().len() && !s.drop_last()[x];
        assert(s[x] == s.drop_last()[x]);
    } else {
        assert(!s[s.len() - 1]);
    }
}

/// In an order that puts every item after those related to it, when every
/// unfinished item waits for an unfinished related one, the first `a` items
/// of the order are finished.
proof fn lemma_prefix_done(
    n: nat,
    rel: spec_fn(int, int) -> bool,
    preds: Seq<Seq<usize>>,
    done: Seq<bool>,
    o: Seq<usize>,
    a: int,
)
    requires
        preds.len() == n,
        done.len() == n,
        n <= usize::MAX,
        preds_match(n, rel, preds),
        forall|y: int| 0 <= y < n && !done[y] ==> exists|k: int| 0 <= k < preds[y].len() && !done[#[trigger] preds[y][k] as int],
        is_permutation(o, n),
        respects_rel(o, rel),
        0 <= a <= n,
    ensures
        forall|b: int| 0 <= b < a ==> done[#[trigger] o[b] as int],
    decreases a,
{
    if a > 0 {
        reveal(preds_match);
        lemma_prefix_done(n, rel, preds, done, o, a - 1);
        let y = o[a - 1] as int;
        if !done[y] {
            let k = choose|k: int| 0 <= k < preds[y].len() && !done[#[trigger] preds[y][k] as int];
            let p = preds[y][k];
            assert(preds[y].contains(p));
            assert(preds[y].contains((p as int) as usize));
            assert(rel(p as int, y));
            lemma_permutation_onto(o, n, p);
            let b = choose|b: int| 0 <= b < n && o[b] == p;
            assert(rel(o[b] as int, o[a - 1] as int));
        }
    }
}

/// Counting over all-unset flags counts every entry.
proof fn lemma_count_pending_all(l: Seq<usize>, done: Seq<bool>)
    requires
        forall|k: int| 0 <= k < l.len() ==> !done[l[k] as int],
    ensures
        count_pending(l, done) == l.len(),
    decreases l.len(),
{
    if l.len() > 0 {
        assert(l.last() == l[l.len() - 1]);
        assert forall|k: int| 0 <= k < l.len() - 1 implies !done[l.drop_last()[k] as int] by {
            assert(l.drop_last()[k] == l[k]);
        }
        lemma_count_pending_all(l.drop_last(), done);
    }
}

/// No flag set: the count of set flags is zero.
proof fn lemma_count_true_zero(s: Seq<bool>)
    requires
        forall|k: int| 0 <= k < s.len() ==> !s[k],
    ensures
        count_true(s) == 0,
    decreases s.len(),
{
    if s.len() > 0 {
        assert(s.last() == s[s.len() - 1]);
        lemma_count_true_zero(s.drop_last());
    }
}

/// The partitions of the subgraphs, ordered so that a subgraph comes after
/// the subgraphs producing the tensors it consumes; `None` when they depend on
/// each other in a cycle.
pub fn topological_sort_subgraphs<'a>(items: Vec<(Subgraph<'a>, Vec<Partition<'a>>)>) -> (r: Option<
    Vec<Vec<Partition<'a>>>,
>)
    requires
        forall|k: int| 0 <= k < items.len() ==> (#[trigger] items@[k]).0.wf(),
    ensures
        r matches Some(v) ==> exists|order: Seq<usize>|
            {
                &&& is_permutation(order, items.len() as nat)
                &&& respects_feeds(items@.map_values(|x: (Subgraph<'a>, Vec<Partition<'a>>)| x.0), order)
                &&& v.len() == order.len()
                &&& forall|k: int| 0 <= k < v.len() ==> (#[trigger] v@[k])@ == items@[order[k] as int].1@
            },
        r is None ==> forall|o: Seq<usize>|
            #[trigger] is_permutation(o, items.len() as nat) ==> !respects_feeds(
                items@.map_values(|x: (Subgraph<'a>, Vec<Partition<'a>>)| x.0),
                o,
            ),
{
    let ghost iv = items@;
    let n = items.len();
    let mut items = items;
    let mut subs_rev: Vec<Subgraph<'a>> = Vec::new();
    let mut parts_rev: Vec<Vec<Partition<'a>>> = Vec::new();
    while items.len() > 0
        invariant
            n == iv.len(),
            items@ == iv.take(items.len() as int),
            subs_rev.len() == n - items.len(),
            parts_rev.len() == n - items.len(),
            forall|m: int| 0 <= m < subs_rev.len() ==> (#[trigger] subs_rev@[m]) == iv[n - 1 - m].0,
            forall|m: int| 0 <= m < parts_rev.len() ==> (#[trigger] parts_rev@[m])@ == iv[n - 1 - m].1@,
        decreases items.len(),
    {
        let ghost k = items.len();
        let (s, p) = items.pop().unwrap();
        proof {
            assert(iv.take(k as int)[k - 1] == iv[k - 1]);
            assert(items@ =~= iv.take(k - 1));
        }
        subs_rev.push(s);
        parts_rev.push(p);
    }
    let mut subs: Vec<Subgraph<'a>> = Vec::new();
    while subs_rev.len() > 0
        invariant
            n == iv.len(),
            parts_rev.len() == n,
            forall|m: int| 0 <= m < parts_rev.len() ==> (#[trigger] parts_rev@[m])@ == iv[n - 1 - m].1@,
            subs_rev.len() + subs.len() == n,
            forall|m: int| 0 <= m < subs_rev.len() ==> (#[trigger] subs_rev@[m]) == iv[n - 1 - m].0,
            forall|m: int| 0 <= m < subs.len() ==> (#[trigger] subs@[m]) == iv[m].0,
        decreases subs_rev.len(),
    {
        let s = subs_rev.pop().unwrap();
        subs.push(s);
    }
    proof {
        assert(subs@ =~= iv.map_values(|x: (Subgraph<'a>, Vec<Partition<'a>>)| x.0));
    }
    let order = match subgraph_order(&subs) {
        Some(o) => o,
        None => {
            return None;
        },
    };
    let mut pos_of: Vec<usize> = Vec::new();
    for m in 0..n
        invariant
            pos_of.len() == m,
            parts_rev.len() == n,
            forall|m: int| 0 <= m < parts_rev.len() ==> (#[trigger] parts_rev@[m])@ == iv[n - 1 - m].1@,
            is_permutation(order@, n as nat),
    {
        pos_of.push(0);
    }
    for q in 0..n
        invariant
            n == iv.len(),
            is_permutation(order@, n as nat),
            parts_rev.len() == n,
            forall|m: int| 0 <= m < parts_rev.len() ==> (#[trigger] parts_rev@[m])@ == iv[n - 1 - m].1@,
            pos_of.len() == n,
            forall|a: int| 0 <= a < q ==> pos_of@[order@[a] as int] == a,
    {
        let ghost p0 = pos_of@;
        pos_of.set(order[q], q);
        proof {
            assert forall|a: int| 0 <= a < q + 1 implies pos_of@[order@[a] as int] == a by {
                if a < q {
                    assert(order@[a] != order@[q as int]);
                    assert(pos_of@[order@[a] as int] == p0[order@[a] as int]);
                }
            }
        }
    }
    let mut slots: Vec<Option<Vec<Partition<'a>>>> = Vec::new();
    for m in 0..n
        invariant
            slots.len() == m,
            parts_rev.len() == n,
            forall|m: int| 0 <= m < parts_rev.len() ==> (#[trigger] parts_rev@[m])@ == iv[n - 1 - m].1@,
            is_permutation(order@, n as nat),
            pos_of.len() == n,
            forall|a: int| 0 <= a < n ==> pos_of@[order@[a] as int] == a,
    {
        slots.push(None);
    }
    while parts_rev.len() > 0
        invariant
            n == iv.len(),
            is_permutation(order@, n as nat),
            pos_of.len() == n,
            forall|a: int| 0 <= a < n ==> pos_of@[order@[a] as int] == a,
            slots.len() == n,
            parts_rev.len() <= n,
            forall|m: int| 0 <= m < parts_rev.len() ==> (#[trigger] parts_rev@[m])@ == iv[n - 1 - m].1@,
            forall|a: int|
                0 <= a < n && order@[a] < n - parts_rev.len() ==> ((#[trigger] slots@[a]) matches Some(p) && p@
                    == iv[order@[a] as int].1@),
        decreases parts_rev.len(),
    {
        let idx = n - parts_rev.len();
        let p = parts_rev.pop().unwrap();
        proof {
            assert(p@ == iv[idx as int].1@);
        }
        let ghost before = slots@;
        assert(pos_of@[idx as int] < n) by {
            assert forall|a: int| 0 <= a < n implies order@[a] != idx || pos_of@[idx as int] == a by {}
            assert(exists|a: int| 0 <= a < n && order@[a] == idx) by {
                lemma_permutation_onto(order@, n as nat, idx);
            }
        }
        slots.set(pos_of[idx], Some(p));
        proof {
            assert forall|a: int|
                0 <= a < n && order@[a] < n - parts_rev.len() implies ((#[trigger] slots@[a]) matches Some(pp) && pp@
                    == iv[order@[a] as int].1@) by {
                if order@[a] == idx {
                    assert(pos_of@[idx as int] == a);
                } else {
                    assert(pos_of@[order@[a] as int] == a);
                    let b = pos_of@[idx as int] as int;
                    lemma_permutation_onto(order@, n as nat, idx);
                    let w = choose|w: int| 0 <= w < n && order@[w] == idx;
                    assert(pos_of@[order@[w] as int] == w);
                    assert(a != b);
                    assert(slots@[a] == before[a]);
                }
            }
        }
    }
    let mut result_rev: Vec<Vec<Partition<'a>>> = Vec::new();
    while slots.len() > 0
        invariant
            n == iv.len(),
            is_permutation(order@, n as nat),
            slots.len() + result_rev.len() == n,
            forall|a: int| 0 <= a < slots.len() ==> ((#[trigger] slots@[a]) matches Some(p) && p@ == iv[order@[a] as int].1@),
            forall|m: int| 0 <= m < result_rev.len() ==> (#[trigger] result_rev@[m])@ == iv[order@[n - 1 - m] as int].1@,
        decreases slots.len(),
    {
        let slot = slots.pop().unwrap();
        let p = match slot {
            Some(p) => p,
            None => Vec::new(),
        };
        result_rev.push(p);
    }
    let mut result: Vec<Vec<Partition<'a>>> = Vec::new();
    while result_rev.len() > 0
        invariant
            n == iv.len(),
            is_permutation(order@, n as nat),
            result_rev.len() + result.len() == n,
            forall|m: int| 0 <= m < result_rev.len() ==> (#[trigger] result_rev@[m])@ == iv[order@[n - 1 - m] as int].1@,
            forall|m: int| 0 <= m < result.len() ==> (#[trigger] result@[m])@ == iv[order@[m] as int].1@,
        decreases result_rev.len(),
    {
        let p = result_rev.pop().unwrap();
        result.push(p);
    }
    proof {
        assert(is_permutation(order@, iv.len() as nat));
    }
    Some(result)
}

/// A permutation of `0..n` takes every value below `n`.
proof fn lemma_permutation_onto(order: Seq<usize>, n: nat, v: usize)
    requires
        is_permutation(order, n),
        n <= usize::MAX,
        v < n,
    ensures
        exists|a: int| 0 <= a < n && order[a] == v,
{
    let s = order.to_set();
    assert forall|x: usize| #[trigger] s.contains(x) implies x < n by {
        let a = choose|a: int| 0 <= a < order.len() && order[a] == x;
    }
    order.unique_seq_to_set();
    assert(s.len() == n);
    let full = Set::new(|x: usize| x < n);
    vstd::set_lib::lemma_int_range(0, n as int);
    if !s.contains(v) {
        assert(s.subset_of(full.remove(v)));
        full_range_len(n);
        vstd::set_lib::lemma_len_subset(s, full.remove(v));
    }
}

/// The set of `usize` values below `n` has `n` elements.
proof fn full_range_len(n: nat)
    requires
        n <= usize::MAX,
    ensures
        Set::new(|x: usize| x < n).finite(),
        Set::new(|x: usize| x < n).len() == n,
    decreases n,
{
    let full = Set::new(|x: usize| x < n);
    if n == 0 {
        assert(full =~= Set::empty());
    } else {
        full_range_len((n - 1) as nat);
        let smaller = Set::new(|x: usize| x < (n - 1) as nat);
        assert(full =~= smaller.insert((n - 1) as usize));
    }
}

} // verus!
