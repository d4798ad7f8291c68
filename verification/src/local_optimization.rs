use vstd::prelude::*;

use crate::graph::{ComputationGraph, OperationId, Partition, Subgraph, TensorId};
use crate::input_format::DeviceParameters;
use crate::partition::{latency_pre, lemma_model_subgraph, model_fits, stage_fits};
use crate::performance_model::{
    all_wf, latency_result, latency_sum, fold_metrics, metric_latency, stage_cost, subgraph_latency, PerformanceMetric,
    zero_pair, sum_fits, fold_fits, add_fits, lemma_sum_fits_prefix, lemma_fold_fits_prefix,
};
use crate::rational::{frac_add, frac_le, fraction_from_int, rational_add_checked, rational_lt, Rational};
use crate::tiling::{dims_bounded, is_best, search_tile_values, SearchError, MAX_DIM};

use vstd::arithmetic::power2::{lemma_pow2_pos, lemma_pow2_unfold, pow2};

verus! {

/// A pending subset: the tensors chosen so far, the next candidate index and
/// the capacity left.
pub open spec fn frame_view(f: (Vec<TensorId>, usize, i64)) -> (Seq<TensorId>, usize, i64) {
    (f.0@, f.1, f.2)
}

/// The subsets pushed when `top` is expanded: one per candidate from `top.1`
/// on that still fits, the last candidate first.
pub open spec fn expand_frame(
    candidates: Seq<(TensorId, i64)>,
    top: (Seq<TensorId>, usize, i64),
    hi: int,
) -> Seq<(Seq<TensorId>, usize, i64)>
    decreases hi,
{
    if hi <= top.1 || hi > candidates.len() {
        Seq::empty()
    } else {
        let i = hi - 1;
        let (tid, size) = candidates[i];
        let here = if size <= top.2 {
            seq![(top.0.push(tid), (i + 1) as usize, (top.2 - size) as i64)]
        } else {
            Seq::empty()
        };
        here + expand_frame(candidates, top, hi - 1)
    }
}

/// How many subsets a pending frame can still yield, at most: each later
/// candidate in or out.
pub open spec fn frame_weight(len: nat, f: (Seq<TensorId>, usize, i64)) -> nat {
    pow2((len - f.1) as nat)
}

/// `frame_weight` summed over the frames.
pub open spec fn stack_weight(len: nat, frames: Seq<(Seq<TensorId>, usize, i64)>) -> nat
    decreases frames.len(),
{
    if frames.len() == 0 {
        0
    } else {
        stack_weight(len, frames.drop_last()) + frame_weight(len, frames.last())
    }
}

proof fn lemma_stack_weight_concat(
    len: nat,
    a: Seq<(Seq<TensorId>, usize, i64)>,
    b: Seq<(Seq<TensorId>, usize, i64)>,
)
    ensures
        stack_weight(len, a + b) == stack_weight(len, a) + stack_weight(len, b),
    decreases b.len(),
{
    if b.len() > 0 {
        lemma_stack_weight_concat(len, a, b.drop_last());
        assert((a + b).drop_last() =~= a + b.drop_last());
        assert((a + b).last() == b.last());
    } else {
        assert(a + b =~= a);
    }
}

proof fn lemma_expand_weight(candidates: Seq<(TensorId, i64)>, top: (Seq<TensorId>, usize, i64), hi: int)
    requires
        top.1 <= hi <= candidates.len(),
        candidates.len() <= usize::MAX,
    ensures
        stack_weight(candidates.len(), expand_frame(candidates, top, hi)) + pow2((candidates.len() - hi) as nat)
            <= pow2((candidates.len() - top.1) as nat),
    decreases hi,
{
    let len = candidates.len();
    if hi > top.1 {
        lemma_expand_weight(candidates, top, hi - 1);
        let i = hi - 1;
        let (tid, size) = candidates[i];
        let here = if size <= top.2 {
            seq![(top.0.push(tid), (i + 1) as usize, (top.2 - size) as i64)]
        } else {
            Seq::empty()
        };
        lemma_stack_weight_concat(len, here, expand_frame(candidates, top, hi - 1));
        lemma_pow2_unfold((len - i) as nat);
        if size <= top.2 {
            assert(here.drop_last() =~= Seq::<(Seq<TensorId>, usize, i64)>::empty());
            assert(here.last().1 == hi);
            assert(stack_weight(len, here.drop_last()) == 0);
            assert(frame_weight(len, here.last()) == pow2((len - hi) as nat));
            assert(stack_weight(len, here) == pow2((len - hi) as nat));
        } else {
            assert(stack_weight(len, here) == 0);
        }
    }
}

/// Sum of the sizes of the candidates at the indices `idx`.
pub open spec fn picked_size(candidates: Seq<(TensorId, i64)>, idx: Seq<int>) -> int
    decreases idx.len(),
{
    if idx.len() == 0 {
        0
    } else {
        picked_size(candidates, idx.drop_last()) + candidates[idx.last()].1
    }
}

/// The selection of `f` is the candidates at the strictly increasing indices
/// `idx`, all below the frame's next index.
pub open spec fn picks(candidates: Seq<(TensorId, i64)>, f: (Seq<TensorId>, usize, i64), idx: Seq<int>) -> bool {
    &&& idx.len() == f.0.len()
    &&& forall|j: int| 0 <= j < idx.len() ==> 0 <= #[trigger] idx[j] < f.1 && f.0[j] == candidates[idx[j]].0
    &&& forall|i: int, j: int| 0 <= i < j < idx.len() ==> idx[i] < idx[j]
}

/// Every pending frame selects candidates in increasing index order, and the
/// capacity it has left is `capacity` less the sizes it selected.
pub open spec fn frames_fit(candidates: Seq<(TensorId, i64)>, capacity: int, frames: Seq<(Seq<TensorId>, usize, i64)>) -> bool {
    forall|k: int| 0 <= k < frames.len() ==> frame_fits(candidates, capacity, #[trigger] frames[k])
}

/// Frame `f` selects candidates in increasing index order, and the capacity
/// it has left is `capacity` less the sizes it selected.
pub open spec fn frame_fits(candidates: Seq<(TensorId, i64)>, capacity: int, f: (Seq<TensorId>, usize, i64)) -> bool {
    exists|idx: Seq<int>| picks(candidates, f, idx) && picked_size(candidates, idx) + f.2 == capacity
}

/// The frame that the enumeration starts from fits.
pub proof fn lemma_start_fits(candidates: Seq<(TensorId, i64)>, capacity: i64)
    ensures
        frames_fit(candidates, capacity as int, seq![(Seq::<TensorId>::empty(), 0usize, capacity)]),
{
    let frames = seq![(Seq::<TensorId>::empty(), 0usize, capacity)];
    assert(picks(candidates, frames[0], Seq::<int>::empty()));
    assert(picked_size(candidates, Seq::<int>::empty()) == 0);
}

proof fn lemma_expand_fits(
    candidates: Seq<(TensorId, i64)>,
    capacity: int,
    top: (Seq<TensorId>, usize, i64),
    idx: Seq<int>,
    hi: int,
)
    requires
        picks(candidates, top, idx),
        picked_size(candidates, idx) + top.2 == capacity,
        candidates.len() <= usize::MAX,
        forall|c: int| 0 <= c < candidates.len() ==> (#[trigger] candidates[c]).1 >= 0,
    ensures
        frames_fit(candidates, capacity, expand_frame(candidates, top, hi)),
    decreases hi,
{
    if hi > top.1 && hi <= candidates.len() {
        lemma_expand_fits(candidates, capacity, top, idx, hi - 1);
        let i = hi - 1;
        let (tid, size) = candidates[i];
        let here = if size <= top.2 {
            seq![(top.0.push(tid), (i + 1) as usize, (top.2 - size) as i64)]
        } else {
            Seq::empty()
        };
        let rest = expand_frame(candidates, top, hi - 1);
        let all = here + rest;
        assert(all == expand_frame(candidates, top, hi));
        assert forall|k: int| 0 <= k < all.len() implies frame_fits(candidates, capacity, #[trigger] all[k]) by {
            if k < here.len() {
                let f = all[k];
                let ix = idx.push(i);
                assert(f == here[0]);
                assert(size >= 0);
                assert(f.2 == top.2 - size);
                assert(f.1 == i + 1);
                assert(ix.drop_last() =~= idx);
                assert(picks(candidates, f, ix)) by {
                    assert forall|j: int| 0 <= j < ix.len() implies 0 <= #[trigger] ix[j] < f.1 && f.0[j]
                        == candidates[ix[j]].0 by {
                        if j < idx.len() {
                            assert(ix[j] == idx[j]);
                            assert(top.0.push(tid)[j] == top.0[j]);
                        }
                    }
                }
                assert(picked_size(candidates, ix) + f.2 == capacity);
                assert(frame_fits(candidates, capacity, f));
            } else {
                assert(all[k] == rest[k - here.len()]);
            }
        }
        assert(frames_fit(candidates, capacity, all));
    } else {
        assert(expand_frame(candidates, top, hi) =~= Seq::<(Seq<TensorId>, usize, i64)>::empty());
    }
}

/// Taking a subset keeps every pending frame fitting: the top frame, whose
/// selection is the subset handed out, selects candidates whose sizes sum to
/// at most `capacity` when its capacity left is not negative, and the frames
/// pushed in its place fit too.
pub proof fn lemma_next_keeps_fit(
    candidates: Seq<(TensorId, i64)>,
    capacity: int,
    frames: Seq<(Seq<TensorId>, usize, i64)>,
)
    requires
        frames_fit(candidates, capacity, frames),
        frames.len() > 0,
        candidates.len() <= usize::MAX,
        forall|c: int| 0 <= c < candidates.len() ==> (#[trigger] candidates[c]).1 >= 0,
    ensures
        frames.last().2 >= 0 ==> exists|idx: Seq<int>|
            picks(candidates, frames.last(), idx) && picked_size(candidates, idx) <= capacity,
        frames_fit(
            candidates,
            capacity,
            frames.drop_last() + expand_frame(candidates, frames.last(), candidates.len() as int),
        ),
{
    let top = frames.last();
    assert(frames[frames.len() - 1] == top);
    assert(frame_fits(candidates, capacity, frames[frames.len() - 1]));
    let idx = choose|idx: Seq<int>| picks(candidates, top, idx) && picked_size(candidates, idx) + top.2 == capacity;
    lemma_expand_fits(candidates, capacity, top, idx, candidates.len() as int);
    if top.2 >= 0 {
        assert(picks(candidates, frames.last(), idx) && picked_size(candidates, idx) <= capacity);
    }
    let pushed = expand_frame(candidates, top, candidates.len() as int);
    let all = frames.drop_last() + pushed;
    assert forall|k: int| 0 <= k < all.len() implies frame_fits(candidates, capacity, #[trigger] all[k]) by {
        if k < frames.len() - 1 {
            assert(all[k] == frames[k]);
        } else {
            assert(all[k] == pushed[k - (frames.len() - 1)]);
        }
    }
    assert(frames_fit(candidates, capacity, all));
}

/// Every frame's next candidate index is in range.
pub open spec fn frames_bounded(candidates: Seq<(TensorId, i64)>, frames: Seq<(Seq<TensorId>, usize, i64)>) -> bool {
    &&& candidates.len() <= usize::MAX
    &&& forall|k: int| 0 <= k < frames.len() ==> (#[trigger] frames[k]).1 <= candidates.len()
}

/// The subsets handed out, in order, by taking the top frame and pushing its
/// extensions in its place until no frame is left.
pub closed spec fn enumeration(candidates: Seq<(TensorId, i64)>, frames: Seq<(Seq<TensorId>, usize, i64)>) -> Seq<
    Seq<TensorId>,
>
    decreases stack_weight(candidates.len(), frames),
{
    if frames.len() == 0 || !frames_bounded(candidates, frames) {
        Seq::empty()
    } else {
        let top = frames.last();
        let rest = frames.drop_last() + expand_frame(candidates, top, candidates.len() as int);
        proof {
            lemma_enumeration_step_weight(candidates, frames);
        }
        seq![top.0] + enumeration(candidates, rest)
    }
}

/// Taking the top frame and pushing its extensions lowers the stack weight,
/// and keeps the frames in range.
proof fn lemma_enumeration_step_weight(candidates: Seq<(TensorId, i64)>, frames: Seq<(Seq<TensorId>, usize, i64)>)
    requires
        frames.len() > 0,
        frames_bounded(candidates, frames),
    ensures
        stack_weight(
            candidates.len(),
            frames.drop_last() + expand_frame(candidates, frames.last(), candidates.len() as int),
        ) < stack_weight(candidates.len(), frames),
        frames_bounded(candidates, frames.drop_last() + expand_frame(candidates, frames.last(), candidates.len() as int)),
{
    let len = candidates.len();
    let top = frames.last();
    assert(frames[frames.len() - 1] == top);
    lemma_expand_weight(candidates, top, len as int);
    lemma_stack_weight_concat(len, frames.drop_last(), expand_frame(candidates, top, len as int));
    lemma_pow2_pos(0);
    assert(frames.drop_last().push(top) =~= frames);
    lemma_expand_bounded(candidates, top, len as int);
    let rest = frames.drop_last() + expand_frame(candidates, top, len as int);
    assert forall|k: int| 0 <= k < rest.len() implies (#[trigger] rest[k]).1 <= candidates.len() by {
        if k < frames.len() - 1 {
            assert(rest[k] == frames[k]);
        } else {
            assert(rest[k] == expand_frame(candidates, top, len as int)[k - (frames.len() - 1)]);
        }
    }
}

/// The extensions of a frame name next indices in range.
proof fn lemma_expand_bounded(candidates: Seq<(TensorId, i64)>, top: (Seq<TensorId>, usize, i64), hi: int)
    requires
        candidates.len() <= usize::MAX,
    ensures
        forall|k: int|
            0 <= k < expand_frame(candidates, top, hi).len() ==> (#[trigger] expand_frame(candidates, top, hi)[k]).1
                <= candidates.len(),
    decreases hi,
{
    if hi > top.1 && hi <= candidates.len() {
        lemma_expand_bounded(candidates, top, hi - 1);
        let i = hi - 1;
        let (tid, size) = candidates[i];
        let here = if size <= top.2 {
            seq![(top.0.push(tid), (i + 1) as usize, (top.2 - size) as i64)]
        } else {
            Seq::empty()
        };
        let rest = expand_frame(candidates, top, hi - 1);
        assert forall|k: int| 0 <= k < (here + rest).len() implies (#[trigger] (here + rest)[k]).1 <= candidates.len() by {
            if k >= here.len() {
                assert((here + rest)[k] == rest[k - here.len()]);
            }
        }
    }
}

/// The tensor ids of the candidates at the indices `idx`.
pub open spec fn picked_ids(candidates: Seq<(TensorId, i64)>, idx: Seq<int>) -> Seq<TensorId> {
    idx.map_values(|i: int| candidates[i].0)
}

/// The size picked by a nonempty index list is its first size and the rest.
proof fn lemma_picked_size_first(candidates: Seq<(TensorId, i64)>, idx: Seq<int>)
    requires
        idx.len() > 0,
    ensures
        picked_size(candidates, idx) == candidates[idx[0]].1 + picked_size(candidates, idx.drop_first()),
    decreases idx.len(),
{
    if idx.len() > 1 {
        lemma_picked_size_first(candidates, idx.drop_last());
        assert(idx.drop_last().drop_first() =~= idx.drop_first().drop_last());
        assert(idx.drop_first().last() == idx.last());
        assert(idx.drop_last()[0] == idx[0]);
    } else {
        assert(idx.drop_last() =~= Seq::<int>::empty());
        assert(idx.drop_first() =~= Seq::<int>::empty());
    }
}

/// Sizes that are not negative sum to no less than zero.
proof fn lemma_picked_size_nonneg(candidates: Seq<(TensorId, i64)>, idx: Seq<int>)
    requires
        forall|c: int| 0 <= c < candidates.len() ==> (#[trigger] candidates[c]).1 >= 0,
        forall|j: int| 0 <= j < idx.len() ==> 0 <= #[trigger] idx[j] < candidates.len(),
    ensures
        picked_size(candidates, idx) >= 0,
    decreases idx.len(),
{
    if idx.len() > 0 {
        lemma_picked_size_nonneg(candidates, idx.drop_last());
        assert(0 <= idx[idx.len() - 1] < candidates.len());
    }
}

/// Expanding `top` pushes, for each candidate `e` from `top.1` on that fits,
/// the frame that adds it.
proof fn lemma_expand_has(candidates: Seq<(TensorId, i64)>, top: (Seq<TensorId>, usize, i64), hi: int, e: int)
    requires
        top.1 <= e < hi <= candidates.len(),
        candidates.len() <= usize::MAX,
        0 <= candidates[e].1 <= top.2,
    ensures
        exists|m: int|
            0 <= m < expand_frame(candidates, top, hi).len() && #[trigger] expand_frame(candidates, top, hi)[m] == (
                top.0.push(candidates[e].0),
                (e + 1) as usize,
                (top.2 - candidates[e].1) as i64,
            ),
    decreases hi,
{
    let i = hi - 1;
    let (tid, size) = candidates[i];
    let here = if size <= top.2 {
        seq![(top.0.push(tid), (i + 1) as usize, (top.2 - size) as i64)]
    } else {
        Seq::empty()
    };
    let rest = expand_frame(candidates, top, hi - 1);
    assert(expand_frame(candidates, top, hi) == here + rest);
    if e == i {
        assert((here + rest)[0] == here[0]);
    } else {
        lemma_expand_has(candidates, top, hi - 1, e);
        let m = choose|m: int|
            0 <= m < rest.len() && #[trigger] rest[m] == (
                top.0.push(candidates[e].0),
                (e + 1) as usize,
                (top.2 - candidates[e].1) as i64,
            );
        assert((here + rest)[here.len() + m] == rest[m]);
    }
}

/// Every extension of a pending frame by later candidates, in increasing
/// index order, that fits in the frame's capacity is handed out.
proof fn lemma_enumeration_has(
    candidates: Seq<(TensorId, i64)>,
    frames: Seq<(Seq<TensorId>, usize, i64)>,
    k: int,
    ext: Seq<int>,
)
    requires
        frames_bounded(candidates, frames),
        forall|c: int| 0 <= c < candidates.len() ==> (#[trigger] candidates[c]).1 >= 0,
        0 <= k < frames.len(),
        forall|j: int| 0 <= j < ext.len() ==> frames[k].1 <= #[trigger] ext[j] < candidates.len(),
        forall|i: int, j: int| 0 <= i < j < ext.len() ==> ext[i] < ext[j],
        picked_size(candidates, ext) <= frames[k].2,
    ensures
        enumeration(candidates, frames).contains(frames[k].0 + picked_ids(candidates, ext)),
    decreases stack_weight(candidates.len(), frames),
{
    let len = candidates.len();
    let top = frames.last();
    let rest = frames.drop_last() + expand_frame(candidates, top, len as int);
    lemma_enumeration_step_weight(candidates, frames);
    let en = enumeration(candidates, frames);
    assert(en == seq![top.0] + enumeration(candidates, rest));
    let target = frames[k].0 + picked_ids(candidates, ext);
    if k < frames.len() - 1 {
        assert(rest[k] == frames[k]);
        lemma_enumeration_has(candidates, rest, k, ext);
        let m = choose|m: int| 0 <= m < enumeration(candidates, rest).len() && enumeration(candidates, rest)[m] == target;
        assert(en[m + 1] == target);
    } else {
        assert(frames[k] == top);
        if ext.len() == 0 {
            assert(picked_ids(candidates, ext) =~= Seq::<TensorId>::empty());
            assert(target =~= top.0);
            assert(en[0] == top.0);
        } else {
            let e = ext[0];
            lemma_picked_size_first(candidates, ext);
            let tail = ext.drop_first();
            assert forall|j: int| 0 <= j < tail.len() implies 0 <= #[trigger] tail[j] < candidates.len() by {
                assert(tail[j] == ext[j + 1]);
            }
            lemma_picked_size_nonneg(candidates, tail);
            lemma_expand_has(candidates, top, len as int, e);
            let child = (top.0.push(candidates[e].0), (e + 1) as usize, (top.2 - candidates[e].1) as i64);
            let m = choose|m: int|
                0 <= m < expand_frame(candidates, top, len as int).len() && #[trigger] expand_frame(
                    candidates,
                    top,
                    len as int,
                )[m] == child;
            let kc = frames.len() - 1 + m;
            assert(rest[kc] == child);
            assert forall|j: int| 0 <= j < tail.len() implies rest[kc].1 <= #[trigger] tail[j] < candidates.len() by {
                assert(tail[j] == ext[j + 1]);
                assert(ext[0] < ext[j + 1]);
            }
            assert forall|i: int, j: int| 0 <= i < j < tail.len() implies tail[i] < tail[j] by {
                assert(tail[i] == ext[i + 1] && tail[j] == ext[j + 1]);
            }
            lemma_enumeration_has(candidates, rest, kc, tail);
            assert(child.0 + picked_ids(candidates, tail) =~= target);
            let q = choose|q: int|
                0 <= q < enumeration(candidates, rest).len() && enumeration(candidates, rest)[q] == child.0
                    + picked_ids(candidates, tail);
            assert(en[q + 1] == target);
        }
    }
}

/// The enumeration that starts from the empty subset with `capacity` hands
/// out every subset of the candidates, taken in increasing index order, whose
/// sizes sum to at most `capacity`.
pub proof fn lemma_enumeration_complete(candidates: Seq<(TensorId, i64)>, capacity: i64, idx: Seq<int>)
    requires
        candidates.len() <= usize::MAX,
        forall|c: int| 0 <= c < candidates.len() ==> (#[trigger] candidates[c]).1 >= 0,
        forall|j: int| 0 <= j < idx.len() ==> 0 <= #[trigger] idx[j] < candidates.len(),
        forall|i: int, j: int| 0 <= i < j < idx.len() ==> idx[i] < idx[j],
        picked_size(candidates, idx) <= capacity,
    ensures
        enumeration(candidates, seq![(Seq::<TensorId>::empty(), 0usize, capacity)]).contains(
            picked_ids(candidates, idx),
        ),
{
    let frames = seq![(Seq::<TensorId>::empty(), 0usize, capacity)];
    assert(frames_bounded(candidates, frames));
    lemma_enumeration_has(candidates, frames, 0, idx);
    assert(frames[0].0 + picked_ids(candidates, idx) =~= picked_ids(candidates, idx));
}

/// Enumerates, depth first and in increasing index order, the subsets of the
/// candidate tensors whose sizes fit in the capacity left.
pub struct RetentionCandidates {
    pub candidates: Vec<(TensorId, i64)>,
    pub stack: Vec<(Vec<TensorId>, usize, i64)>,
}

impl RetentionCandidates {
    /// Sizes are non-negative and every pending capacity is non-negative.
    pub open spec fn wf(&self) -> bool {
        &&& forall|i: int| 0 <= i < self.candidates.len() ==> (#[trigger] self.candidates@[i]).1 >= 0
        &&& forall|k: int|
            0 <= k < self.stack.len() ==> (#[trigger] self.stack@[k]).2 >= 0 && self.stack@[k].1
                <= self.candidates.len()
    }

    pub open spec fn frames(&self) -> Seq<(Seq<TensorId>, usize, i64)> {
        self.stack@.map_values(|f: (Vec<TensorId>, usize, i64)| frame_view(f))
    }

    /// Starts from the empty subset when the reserved memory leaves a
    /// non-negative capacity, and enumerates nothing otherwise.
    pub fn new(candidates: Vec<(TensorId, i64)>, fast_mem_cap: i64, reserved_size: i64) -> (r: Self)
        requires
            i64::MIN <= fast_mem_cap - reserved_size <= i64::MAX,
            forall|i: int| 0 <= i < candidates.len() ==> (#[trigger] candidates@[i]).1 >= 0,
        ensures
            r.wf(),
            r.candidates@ == candidates@,
            r.frames() == if fast_mem_cap - reserved_size >= 0 {
                seq![(Seq::<TensorId>::empty(), 0usize, (fast_mem_cap - reserved_size) as i64)]
            } else {
                Seq::empty()
            },
            frames_fit(candidates@, fast_mem_cap - reserved_size, r.frames()),
    {
        let remaining = fast_mem_cap - reserved_size;
        let mut stack: Vec<(Vec<TensorId>, usize, i64)> = Vec::new();
        if remaining >= 0 {
            stack.push((Vec::new(), 0, remaining));
        }
        let r = Self { candidates, stack };
        proof {
            lemma_start_fits(r.candidates@, remaining);
            if remaining >= 0 {
                assert(r.frames() =~= seq![(Seq::<TensorId>::empty(), 0usize, remaining)]);
            } else {
                assert(r.frames() =~= Seq::empty());
            }
        }
        r
    }

    /// The next subset: the top of the stack, whose extensions by one further
    /// candidate that fits are pushed, the smallest index on top.
    pub fn next(&mut self) -> (r: Option<Vec<TensorId>>)
        requires
            old(self).wf(),
        ensures
            final(self).wf(),
            final(self).candidates@ == old(self).candidates@,
            old(self).stack.len() == 0 ==> r is None && final(self).frames() == old(self).frames(),
            old(self).stack.len() > 0 ==> stack_weight(final(self).candidates.len() as nat, final(self).frames())
                < stack_weight(old(self).candidates.len() as nat, old(self).frames()),
            old(self).stack.len() > 0 ==> {
                let top = old(self).frames().last();
                &&& r matches Some(sel) && sel@ == top.0
                &&& final(self).frames() == old(self).frames().drop_last() + expand_frame(
                    old(self).candidates@,
                    top,
                    old(self).candidates.len() as int,
                )
            },
            forall|capacity: int|
                frames_fit(old(self).candidates@, capacity, old(self).frames()) ==> #[trigger] frames_fit(
                    final(self).candidates@,
                    capacity,
                    final(self).frames(),
                ),
            old(self).stack.len() == 0 ==> enumeration(old(self).candidates@, old(self).frames()).len() == 0,
            old(self).stack.len() > 0 ==> (r matches Some(sel) && sel@ == enumeration(
                old(self).candidates@,
                old(self).frames(),
            )[0]) && enumeration(final(self).candidates@, final(self).frames()) == enumeration(
                old(self).candidates@,
                old(self).frames(),
            ).drop_first(),
    {
        let ghost f0 = self.frames();
        let ghost c0 = self.candidates@;
        proof {
            assert(frames_bounded(c0, f0)) by {
                assert(c0.len() == self.candidates.len());
                assert forall|k: int| 0 <= k < f0.len() implies (#[trigger] f0[k]).1 <= c0.len() by {
                    assert(f0[k] == frame_view(self.stack@[k]));
                    assert(self.stack@[k].1 <= self.candidates.len());
                }
            }
        }
        if self.stack.len() == 0 {
            return None;
        }
        let ghost st0 = self.stack@;
        let (selected, next_idx, remaining) = self.stack.pop().unwrap();
        let ghost top = f0.last();
        assert(st0[st0.len() - 1].1 <= self.candidates.len());
        proof {
            assert(self.frames() =~= f0.drop_last());
            assert(top == (selected@, next_idx, remaining));
        }
        let mut i = self.candidates.len();
        let ghost base = self.frames();
        assert(expand_frame(self.candidates@, top, i as int) =~= expand_frame(self.candidates@, top, i as int));
        proof {
            assert(base + expand_frame(self.candidates@, top, self.candidates.len() as int).subrange(
                0,
                0,
            ) =~= base);
        }
        while i > next_idx
            invariant
                next_idx <= i <= self.candidates.len(),
                remaining >= 0,
                top == (selected@, next_idx, remaining),
                forall|j: int| 0 <= j < self.candidates.len() ==> (#[trigger] self.candidates@[j]).1 >= 0,
                forall|k: int|
                    0 <= k < self.stack.len() ==> (#[trigger] self.stack@[k]).2 >= 0 && self.stack@[k].1
                        <= self.candidates.len(),
                self.candidates@ == c0,
                self.frames() + expand_frame(self.candidates@, top, i as int) == base + expand_frame(
                    self.candidates@,
                    top,
                    self.candidates.len() as int,
                ),
            decreases i,
        {
            let (tid, size) = self.candidates[i - 1];
            let ghost fr = self.frames();
            if size <= remaining {
                let mut child: Vec<TensorId> = Vec::new();
                for q in 0..selected.len()
                    invariant
                        child@ == selected@.take(q as int),
                {
                    child.push(selected[q]);
                    assert(selected@.take(q + 1) =~= selected@.take(q as int).push(selected@[q as int]));
                }
                child.push(tid);
                assert(selected@.take(selected.len() as int) =~= selected@);
                self.stack.push((child, i, remaining - size));
                proof {
                    assert(self.frames() =~= fr.push((selected@.push(tid), i, (remaining - size) as i64)));
                    assert(self.frames() + expand_frame(self.candidates@, top, i - 1) =~= fr + expand_frame(
                        self.candidates@,
                        top,
                        i as int,
                    ));
                }
            } else {
                proof {
                    assert(expand_frame(self.candidates@, top, i as int) =~= expand_frame(
                        self.candidates@,
                        top,
                        i - 1,
                    ));
                }
            }
            i = i - 1;
        }
        proof {
            assert(expand_frame(self.candidates@, top, i as int) =~= Seq::empty());
            assert(self.frames() =~= self.frames() + Seq::<(Seq<TensorId>, usize, i64)>::empty());
            let len = self.candidates.len() as nat;
            lemma_expand_weight(self.candidates@, top, self.candidates.len() as int);
            lemma_stack_weight_concat(len, f0.drop_last(), expand_frame(self.candidates@, top, len as int));
            lemma_pow2_pos(0);
            assert(f0.drop_last().push(f0.last()) =~= f0);
            assert forall|capacity: int| frames_fit(c0, capacity, f0) implies #[trigger] frames_fit(
                self.candidates@,
                capacity,
                self.frames(),
            ) by {
                lemma_next_keeps_fit(c0, capacity, f0);
            }
            let en = enumeration(c0, f0);
            assert(en == seq![f0.last().0] + enumeration(c0, f0.drop_last() + expand_frame(c0, f0.last(), c0.len() as int)));
            assert(en.drop_first() =~= enumeration(c0, f0.drop_last() + expand_frame(c0, f0.last(), c0.len() as int)));
        }
        Some(selected)
    }
}

/// Most operations a stage may hold.
pub const MAX_STAGE_SIZE: usize = 3;

/// `p` is an operation of `sg` that produces an input of `op`.
pub open spec fn in_sub_pred(sg: Subgraph, p: OperationId, op: OperationId) -> bool {
    &&& sg.has(p)
    &&& exists|t: TensorId|
        #[trigger] sg.graph().ins()[op.0 as int].contains(t) && sg.graph().producer_spec(t) == Some(p)
}

/// The operations the subgraph `s` holds, as a predicate.
pub open spec fn executed_by(s: Subgraph) -> spec_fn(OperationId) -> bool {
    |x: OperationId| s.has(x)
}

/// Operation `o[i]` is joined by a tensor to an operation added before it.
pub open spec fn grown_at(sg: Subgraph, o: Seq<OperationId>, i: int) -> bool {
    exists|j: int| 0 <= j < i && #[trigger] op_adjacent(sg, o[i], o[j])
}

/// Adding the operations of `o` one at a time, after the operations `done`,
/// grows a connected set: each is an operation of `sg` not done, none twice,
/// the first has its producers in `sg` done, and each after the first is
/// joined by a tensor to one added before it.
pub open spec fn grows(sg: Subgraph, done: spec_fn(OperationId) -> bool, o: Seq<OperationId>) -> bool {
    &&& 1 <= o.len()
    &&& forall|i: int| 0 <= i < o.len() ==> sg.has(#[trigger] o[i]) && !done(o[i])
    &&& forall|i: int, j: int| 0 <= i < j < o.len() ==> o[i] != o[j]
    &&& forall|p: OperationId| #[trigger] in_sub_pred(sg, p, o[0]) ==> done(p)
    &&& forall|i: int| 0 < i < o.len() ==> #[trigger] grown_at(sg, o, i)
}

/// Every producer in `sg` of an operation of `o` is done or in `o`.
pub open spec fn closes(sg: Subgraph, done: spec_fn(OperationId) -> bool, o: Seq<OperationId>) -> bool {
    forall|i: int, p: OperationId| 0 <= i < o.len() && #[trigger] in_sub_pred(sg, p, o[i]) ==> done(p) || o.contains(p)
}

/// The operations `s` can be added one at a time after `done` as `grows` says.
pub open spec fn grown(sg: Subgraph, done: spec_fn(OperationId) -> bool, s: Seq<OperationId>) -> bool {
    exists|o: Seq<OperationId>| #[trigger] grows(sg, done, o) && forall|x: OperationId| o.contains(x) <==> s.contains(x)
}

/// An operation whose producers in `sg` are done grows a stage on its own.
proof fn lemma_grown_single(sg: Subgraph, done: spec_fn(OperationId) -> bool, op: OperationId, s: Seq<OperationId>)
    requires
        sg.wf(),
        sg.graph().is_acyclic(),
        sg.has(op),
        !done(op),
        forall|p: OperationId| in_sub_pred(sg, p, op) ==> done(p) || p == op,
        s == seq![op],
    ensures
        grown(sg, done, s),
{
    let g = sg.graph();
    assert(op.0 < g.num_ops()) by {
        let q = choose|q: int| 0 <= q < sg.node_seq().len() && sg.node_seq()[q] == op;
    }
    assert forall|p: OperationId| #[trigger] in_sub_pred(sg, p, s[0]) implies done(p) by {
        if p == op {
            let t = choose|t: TensorId| #[trigger] g.ins()[op.0 as int].contains(t) && g.producer_spec(t) == Some(p);
            crate::graph::lemma_producer_before(&g, op.0 as int, t);
        }
    }
    assert(grows(sg, done, s));
}

/// Adding an operation `v` joined by a tensor to an operation `w` of a grown
/// set grows the larger set.
proof fn lemma_grown_push(
    sg: Subgraph,
    done: spec_fn(OperationId) -> bool,
    s: Seq<OperationId>,
    v: OperationId,
    w: OperationId,
    t: Seq<OperationId>,
)
    requires
        grown(sg, done, s),
        sg.has(v),
        !done(v),
        !s.contains(v),
        s.contains(w),
        op_adjacent(sg, v, w),
        forall|x: OperationId| t.contains(x) <==> s.contains(x) || x == v,
    ensures
        grown(sg, done, t),
{
    let o = choose|o: Seq<OperationId>| #[trigger] grows(sg, done, o) && forall|x: OperationId| o.contains(x) <==> s.contains(x);
    let o2 = o.push(v);
    let n = o.len() as int;
    assert(o2[n] == v);
    assert forall|i: int| 0 <= i < o2.len() implies sg.has(#[trigger] o2[i]) && !done(o2[i]) by {
        if i < n {
            assert(o2[i] == o[i]);
        }
    }
    assert forall|i: int, j: int| 0 <= i < j < o2.len() implies o2[i] != o2[j] by {
        assert(o2[i] == o[i]);
        if j == n {
            assert(o.contains(o[i]));
        } else {
            assert(o2[j] == o[j]);
        }
    }
    assert(o2[0] == o[0]);
    assert forall|i: int| 0 < i < o2.len() implies #[trigger] grown_at(sg, o2, i) by {
        if i < n {
            assert(grown_at(sg, o, i));
            let j = choose|j: int| 0 <= j < i && #[trigger] op_adjacent(sg, o[i], o[j]);
            assert(o2[i] == o[i] && o2[j] == o[j]);
            assert(op_adjacent(sg, o2[i], o2[j]));
        } else {
            assert(o.contains(w));
            let j = choose|j: int| 0 <= j < n && o[j] == w;
            assert(o2[j] == w);
            assert(op_adjacent(sg, o2[i], o2[j]));
        }
    }
    assert(grows(sg, done, o2));
    assert forall|x: OperationId| o2.contains(x) <==> t.contains(x) by {
        if o2.contains(x) && x != v {
            let i = choose|i: int| 0 <= i < o2.len() && o2[i] == x;
            assert(o[i] == x);
        }
        if o.contains(x) {
            let i = choose|i: int| 0 <= i < o.len() && o[i] == x;
            assert(o2[i] == x);
        }
    }
}

/// Growing a stage depends only on which operations it holds.
proof fn lemma_grown_same(sg: Subgraph, done: spec_fn(OperationId) -> bool, s1: Seq<OperationId>, s2: Seq<OperationId>)
    requires
        grown(sg, done, s1),
        forall|x: OperationId| s1.contains(x) <==> s2.contains(x),
    ensures
        grown(sg, done, s2),
{
    let o = choose|o: Seq<OperationId>| #[trigger] grows(sg, done, o) && forall|x: OperationId| o.contains(x) <==> s1.contains(x);
    assert(grows(sg, done, o) && forall|x: OperationId| o.contains(x) <==> s2.contains(x));
}

/// The operations of `s`, sorted by id, form a connected set grown after
/// `executed`: there are one to `MAX_STAGE_SIZE` of them, all of `sg` and
/// none executed, and they can be added one at a time as `grows` says.
pub open spec fn grown_set(sg: Subgraph, executed: Subgraph, s: Seq<OperationId>) -> bool {
    &&& 1 <= s.len() <= MAX_STAGE_SIZE
    &&& forall|i: int, j: int| 0 <= i < j < s.len() ==> s[i].0 < s[j].0
    &&& forall|i: int| 0 <= i < s.len() ==> sg.has(#[trigger] s[i]) && !executed.has(s[i])
    &&& grown(sg, executed_by(executed), s)
}

/// A stage that may run right after `executed` within `sg`: one to
/// `MAX_STAGE_SIZE` operations of `sg` not executed, with their producers in
/// `sg` executed or in the stage, that can be added one at a time as `grows`
/// says.
pub open spec fn is_next_stage(sg: Subgraph, executed: Subgraph, stage: Subgraph) -> bool {
    &&& stage.wf()
    &&& stage.graph() == sg.graph()
    &&& 1 <= stage.node_seq().len() <= MAX_STAGE_SIZE
    &&& forall|op: OperationId|
        #[trigger] stage.has(op) ==> sg.has(op) && !executed.has(op) && forall|p: OperationId|
            in_sub_pred(sg, p, op) ==> executed.has(p) || stage.has(p)
    &&& grown(sg, executed_by(executed), stage.node_seq())
}

/// The operations of `subgraph` producing inputs of `op`.
fn sub_preds(subgraph: &Subgraph, op: OperationId) -> (r: Vec<OperationId>)
    requires
        subgraph.wf(),
        op.0 < subgraph.graph().num_ops(),
    ensures
        forall|p: OperationId| in_sub_pred(*subgraph, p, op) ==> r@.contains(p),
        forall|k: int| 0 <= k < r.len() ==> subgraph.has(#[trigger] r@[k]) && in_sub_pred(*subgraph, r@[k], op),
{
    let graph = subgraph.parent();
    let ghost g = subgraph.graph();
    let ins = graph.input_ids_for(op);
    let mut r: Vec<OperationId> = Vec::new();
    for q in 0..ins.len()
        invariant
            subgraph.wf(),
            g == subgraph.graph(),
            *graph == g,
            ins@ == g.ins()[op.0 as int],
            forall|k: int| 0 <= k < r.len() ==> subgraph.has(#[trigger] r@[k]) && in_sub_pred(*subgraph, r@[k], op),
            forall|m: int|
                0 <= m < q ==> (g.producer_spec(#[trigger] ins@[m]) matches Some(p) ==> (subgraph.has(p)
                    ==> r@.contains(p))),
    {
        let ghost r0 = r@;
        match graph.producer_id_of(ins[q]) {
            Some(p) => {
                if subgraph.contains(p) {
                    proof {
                        assert(g.ins()[op.0 as int].contains(ins@[q as int]));
                    }
                    r.push(p);
                    proof {
                        assert(r@[r.len() - 1] == p);
                        assert forall|k: int| 0 <= k < r.len() implies subgraph.has(#[trigger] r@[k]) && in_sub_pred(
                            *subgraph,
                            r@[k],
                            op,
                        ) by {
                            if k < r0.len() {
                                assert(r@[k] == r0[k]);
                            }
                        }
                        assert forall|m: int|
                            0 <= m < q + 1 implies (g.producer_spec(#[trigger] ins@[m]) matches Some(x) ==> (
                            subgraph.has(x) ==> r@.contains(x))) by {
                            if m < q {
                                if g.producer_spec(ins@[m]) matches Some(x) && subgraph.has(x) {
                                    let x = g.producer_spec(ins@[m]).unwrap();
                                    let k = choose|k: int| 0 <= k < r0.len() && r0[k] == x;
                                    assert(r@[k] == x);
                                }
                            }
                        }
                    }
                }
            },
            None => {},
        }
    }
    proof {
        assert forall|p: OperationId| in_sub_pred(*subgraph, p, op) implies r@.contains(p) by {
            let t = choose|t: TensorId| #[trigger] g.ins()[op.0 as int].contains(t) && g.producer_spec(t) == Some(p);
            let m = choose|m: int| 0 <= m < ins@.len() && ins@[m] == t;
            assert(g.producer_spec(ins@[m]) == Some(p));
        }
    }
    r
}

/// `x` is an operation of `sg` other than `op` joined to it by a tensor:
/// `x` consumes a tensor that `op` produces or consumes, or `x` produces an
/// input of `op`.
pub open spec fn op_adjacent(sg: Subgraph, op: OperationId, x: OperationId) -> bool {
    let g = sg.graph();
    &&& sg.has(x)
    &&& x != op
    &&& (exists|t: TensorId|
        #[trigger] g.ins()[x.0 as int].contains(t) && (g.outs()[op.0 as int].contains(t) || g.ins()[op.0 as int].contains(
            t,
        ))) || (exists|t: TensorId| #[trigger] g.ins()[op.0 as int].contains(t) && g.producer_spec(t) == Some(x))
}

/// Every consumer of `t`, among the first `upto` listed, that is an
/// operation of `sg` other than `op` is in `r`.
pub open spec fn consumers_listed(sg: Subgraph, op: OperationId, t: TensorId, upto: int, r: Seq<OperationId>) -> bool {
    let g = sg.graph();
    forall|c: int|
        0 <= c < upto && c < g.cons()[t.0 as int].len() && (#[trigger] g.cons()[t.0 as int][c]) != op && sg.has(
            g.cons()[t.0 as int][c],
        ) ==> r.contains(g.cons()[t.0 as int][c])
}

proof fn lemma_consumers_listed_push(
    sg: Subgraph,
    op: OperationId,
    t: TensorId,
    upto: int,
    r: Seq<OperationId>,
    x: OperationId,
)
    requires
        consumers_listed(sg, op, t, upto, r),
    ensures
        consumers_listed(sg, op, t, upto, r.push(x)),
{
    let g = sg.graph();
    assert forall|c: int|
        0 <= c < upto && c < g.cons()[t.0 as int].len() && (#[trigger] g.cons()[t.0 as int][c]) != op && sg.has(
            g.cons()[t.0 as int][c],
        ) implies r.push(x).contains(g.cons()[t.0 as int][c]) by {
        crate::traversal::lemma_push_has(r, x, g.cons()[t.0 as int][c]);
    }
}

/// The operations of `subgraph` joined to `op` by a tensor (see `op_adjacent`).
fn sub_neighbors(subgraph: &Subgraph, op: OperationId) -> (r: Vec<OperationId>)
    requires
        subgraph.wf(),
        op.0 < subgraph.graph().num_ops(),
    ensures
        forall|k: int| 0 <= k < r.len() ==> op_adjacent(*subgraph, op, #[trigger] r@[k]),
        forall|x: OperationId| op_adjacent(*subgraph, op, x) ==> r@.contains(x),
{
    let graph = subgraph.parent();
    let ghost g = subgraph.graph();
    let ghost sg = *subgraph;
    let mut r: Vec<OperationId> = Vec::new();
    let outs = graph.output_ids_for(op);
    for q in 0..outs.len()
        invariant
            subgraph.wf(),
            sg == *subgraph,
            g == subgraph.graph(),
            *graph == g,
            op.0 < g.num_ops(),
            outs@ == g.outs()[op.0 as int],
            forall|k: int| 0 <= k < r.len() ==> op_adjacent(sg, op, #[trigger] r@[k]),
            forall|m: int| 0 <= m < q ==> consumers_listed(sg, op, #[trigger] outs@[m], g.cons()[outs@[m].0 as int].len() as int, r@),
    {
        let t = outs[q];
        assert(t.0 < g.num_tensors());
        let consumers = graph.consumer_ids_for(t);
        for c in 0..consumers.len()
            invariant
                subgraph.wf(),
                sg == *subgraph,
                g == subgraph.graph(),
                *graph == g,
                op.0 < g.num_ops(),
                outs@ == g.outs()[op.0 as int],
                0 <= q < outs.len(),
                t == outs@[q as int],
                t.0 < g.num_tensors(),
                consumers@ == g.cons()[t.0 as int],
                forall|k: int| 0 <= k < r.len() ==> op_adjacent(sg, op, #[trigger] r@[k]),
                forall|m: int| 0 <= m < q ==> consumers_listed(sg, op, #[trigger] outs@[m], g.cons()[outs@[m].0 as int].len() as int, r@),
                consumers_listed(sg, op, t, c as int, r@),
        {
            let x = consumers[c];
            proof {
                crate::graph::lemma_consumer_list_bound(g.ins(), TensorId(t.0), c as int);
                assert(g.cons()[t.0 as int] == crate::graph::consumer_list(g.ins(), TensorId(t.0)));
            }
            let ghost r0 = r@;
            if x.0 < graph.num_operations() && x != op && subgraph.contains(x) {
                proof {
                    lemma_consumer_adjacent(g, t, c as int);
                    assert(g.outs()[op.0 as int].contains(t));
                }
                r.push(x);
                proof {
                    assert forall|k: int| 0 <= k < r.len() implies op_adjacent(sg, op, #[trigger] r@[k]) by {
                        if k < r0.len() {
                            assert(r@[k] == r0[k]);
                        }
                    }
                    assert forall|m: int| 0 <= m < q implies consumers_listed(sg, op, #[trigger] outs@[m], g.cons()[outs@[m].0 as int].len() as int, r@) by {
                        lemma_consumers_listed_push(sg, op, outs@[m], g.cons()[outs@[m].0 as int].len() as int, r0, x);
                    }
                    lemma_consumers_listed_push(sg, op, t, c as int, r0, x);
                    assert(r@[r.len() - 1] == x);
                }
            }
            proof {
                assert(consumers_listed(sg, op, t, c + 1, r@)) by {
                    if !(x.0 < g.num_ops() && x != op && sg.has(x)) {
                        if sg.has(x) {
                            let j = choose|j: int| 0 <= j < sg.node_seq().len() && sg.node_seq()[j] == x;
                        }
                    }
                }
            }
        }
    }
    let ins = graph.input_ids_for(op);
    for q in 0..ins.len()
        invariant
            subgraph.wf(),
            sg == *subgraph,
            g == subgraph.graph(),
            *graph == g,
            op.0 < g.num_ops(),
            outs@ == g.outs()[op.0 as int],
            ins@ == g.ins()[op.0 as int],
            forall|k: int| 0 <= k < r.len() ==> op_adjacent(sg, op, #[trigger] r@[k]),
            forall|m: int| 0 <= m < outs.len() ==> consumers_listed(sg, op, #[trigger] outs@[m], g.cons()[outs@[m].0 as int].len() as int, r@),
            forall|m: int| 0 <= m < q ==> consumers_listed(sg, op, #[trigger] ins@[m], g.cons()[ins@[m].0 as int].len() as int, r@),
            forall|m: int|
                0 <= m < q ==> (g.producer_spec(#[trigger] ins@[m]) matches Some(p) ==> (p != op && sg.has(p) ==> r@.contains(p))),
    {
        let t = ins[q];
        assert(g.ins()[op.0 as int].contains(t));
        assert(t.0 < g.num_tensors());
        let ghost rq = r@;
        match graph.producer_id_of(t) {
            Some(p) => {
                if p != op && subgraph.contains(p) {
                    let ghost r0 = r@;
                    r.push(p);
                    proof {
                        assert forall|k: int| 0 <= k < r.len() implies op_adjacent(sg, op, #[trigger] r@[k]) by {
                            if k < r0.len() {
                                assert(r@[k] == r0[k]);
                            }
                        }
                        assert(r@[r.len() - 1] == p);
                    }
                }
            },
            None => {},
        }
        proof {
            assert forall|y: OperationId| rq.contains(y) implies r@.contains(y) by {
                if r@ != rq {
                    crate::traversal::lemma_push_has(rq, r@[r.len() - 1], y);
                    assert(r@ == rq.push(r@[r.len() - 1]));
                }
            }
            assert forall|m: int| 0 <= m < outs.len() implies consumers_listed(sg, op, #[trigger] outs@[m], g.cons()[outs@[m].0 as int].len() as int, r@) by {
                assert(consumers_listed(sg, op, outs@[m], g.cons()[outs@[m].0 as int].len() as int, rq));
            }
            assert forall|m: int| 0 <= m < q implies consumers_listed(sg, op, #[trigger] ins@[m], g.cons()[ins@[m].0 as int].len() as int, r@) by {
                assert(consumers_listed(sg, op, ins@[m], g.cons()[ins@[m].0 as int].len() as int, rq));
            }
            assert forall|m: int|
                0 <= m < q + 1 implies (g.producer_spec(#[trigger] ins@[m]) matches Some(p) ==> (p != op && sg.has(p) ==> r@.contains(p))) by {
                if m < q {
                    if let Some(p) = g.producer_spec(ins@[m]) {
                        if p != op && sg.has(p) {
                            assert(rq.contains(p));
                        }
                    }
                } else {
                    if let Some(p) = g.producer_spec(ins@[m]) {
                        if p != op && sg.has(p) {
                            assert(r@[r.len() - 1] == p);
                        }
                    }
                }
            }
        }
        let consumers = graph.consumer_ids_for(t);
        for c in 0..consumers.len()
            invariant
                subgraph.wf(),
                sg == *subgraph,
                g == subgraph.graph(),
                *graph == g,
                op.0 < g.num_ops(),
                outs@ == g.outs()[op.0 as int],
                ins@ == g.ins()[op.0 as int],
                0 <= q < ins.len(),
                t == ins@[q as int],
                g.ins()[op.0 as int].contains(t),
                t.0 < g.num_tensors(),
                consumers@ == g.cons()[t.0 as int],
                forall|k: int| 0 <= k < r.len() ==> op_adjacent(sg, op, #[trigger] r@[k]),
                forall|m: int| 0 <= m < outs.len() ==> consumers_listed(sg, op, #[trigger] outs@[m], g.cons()[outs@[m].0 as int].len() as int, r@),
                forall|m: int| 0 <= m < q ==> consumers_listed(sg, op, #[trigger] ins@[m], g.cons()[ins@[m].0 as int].len() as int, r@),
                forall|m: int|
                    0 <= m < q + 1 ==> (g.producer_spec(#[trigger] ins@[m]) matches Some(p) ==> (p != op && sg.has(p) ==> r@.contains(p))),
                consumers_listed(sg, op, t, c as int, r@),
        {
            let x = consumers[c];
            proof {
                crate::graph::lemma_consumer_list_bound(g.ins(), TensorId(t.0), c as int);
                assert(g.cons()[t.0 as int] == crate::graph::consumer_list(g.ins(), TensorId(t.0)));
            }
            let ghost r0 = r@;
            if x.0 < graph.num_operations() && x != op && subgraph.contains(x) {
                proof {
                    lemma_consumer_adjacent(g, t, c as int);
                }
                r.push(x);
                proof {
                    assert forall|k: int| 0 <= k < r.len() implies op_adjacent(sg, op, #[trigger] r@[k]) by {
                        if k < r0.len() {
                            assert(r@[k] == r0[k]);
                        }
                    }
                    assert forall|m: int| 0 <= m < outs.len() implies consumers_listed(sg, op, #[trigger] outs@[m], g.cons()[outs@[m].0 as int].len() as int, r@) by {
                        lemma_consumers_listed_push(sg, op, outs@[m], g.cons()[outs@[m].0 as int].len() as int, r0, x);
                    }
                    assert forall|m: int| 0 <= m < q implies consumers_listed(sg, op, #[trigger] ins@[m], g.cons()[ins@[m].0 as int].len() as int, r@) by {
                        lemma_consumers_listed_push(sg, op, ins@[m], g.cons()[ins@[m].0 as int].len() as int, r0, x);
                    }
                    assert forall|m: int|
                        0 <= m < q + 1 implies (g.producer_spec(#[trigger] ins@[m]) matches Some(p) ==> (p != op && sg.has(p) ==> r@.contains(p))) by {
                        if let Some(p) = g.producer_spec(ins@[m]) {
                            if p != op && sg.has(p) {
                                crate::traversal::lemma_push_has(r0, x, p);
                            }
                        }
                    }
                    lemma_consumers_listed_push(sg, op, t, c as int, r0, x);
                    assert(r@[r.len() - 1] == x);
                }
            }
            proof {
                assert(consumers_listed(sg, op, t, c + 1, r@)) by {
                    if !(x.0 < g.num_ops() && x != op && sg.has(x)) {
                        if sg.has(x) {
                            let j = choose|j: int| 0 <= j < sg.node_seq().len() && sg.node_seq()[j] == x;
                        }
                    }
                }
            }
        }
    }
    proof {
        assert forall|x: OperationId| op_adjacent(sg, op, x) implies r@.contains(x) by {
            assert(x.0 < g.num_ops()) by {
                let j = choose|j: int| 0 <= j < sg.node_seq().len() && sg.node_seq()[j] == x;
            }
            if exists|t: TensorId|
                #[trigger] g.ins()[x.0 as int].contains(t) && (g.outs()[op.0 as int].contains(t) || g.ins()[op.0 as int].contains(
                    t,
                )) {
                let t = choose|t: TensorId|
                    #[trigger] g.ins()[x.0 as int].contains(t) && (g.outs()[op.0 as int].contains(t) || g.ins()[op.0 as int].contains(
                        t,
                    ));
                assert(t.0 < g.num_tensors()) by {
                    let i = choose|i: int| 0 <= i < g.ins()[x.0 as int].len() && g.ins()[x.0 as int][i] == t;
                }
                assert(g.cons()[t.0 as int] == crate::graph::consumer_list(g.ins(), TensorId(t.0)));
                crate::graph::lemma_consumer_list_contains(g.ins(), TensorId(t.0), x.0 as int);
                let c = choose|c: int|
                    0 <= c < crate::graph::consumer_list(g.ins(), TensorId(t.0)).len() && #[trigger] crate::graph::consumer_list(
                        g.ins(),
                        TensorId(t.0),
                    )[c].0 == x.0 as int;
                assert(g.cons()[t.0 as int][c] == x);
                if g.outs()[op.0 as int].contains(t) {
                    let m = choose|m: int| 0 <= m < outs@.len() && outs@[m] == t;
                    assert(consumers_listed(sg, op, outs@[m], g.cons()[outs@[m].0 as int].len() as int, r@));
                } else {
                    let m = choose|m: int| 0 <= m < ins@.len() && ins@[m] == t;
                    assert(consumers_listed(sg, op, ins@[m], g.cons()[ins@[m].0 as int].len() as int, r@));
                }
            } else {
                let t = choose|t: TensorId| #[trigger] g.ins()[op.0 as int].contains(t) && g.producer_spec(t) == Some(x);
                let m = choose|m: int| 0 <= m < ins@.len() && ins@[m] == t;
                assert(g.producer_spec(ins@[m]) == Some(x));
            }
        }
    }
    r
}

/// A consumer listed for `t` has `t` among its inputs.
proof fn lemma_consumer_adjacent(g: ComputationGraph, t: TensorId, c: int)
    requires
        g.wf(),
        t.0 < g.num_tensors(),
        0 <= c < g.cons()[t.0 as int].len(),
    ensures
        g.ins()[g.cons()[t.0 as int][c].0 as int].contains(t),
{
    assert(g.cons()[t.0 as int] == crate::graph::consumer_list(g.ins(), TensorId(t.0)));
    let o = g.cons()[t.0 as int][c].0 as int;
    crate::graph::lemma_consumer_list_contains(g.ins(), t, o);
}

/// Whether `v` holds `x`.
fn has_op(v: &Vec<OperationId>, x: OperationId) -> (r: bool)
    ensures
        r == v@.contains(x),
{
    for i in 0..v.len()
        invariant
            forall|k: int| 0 <= k < i ==> v@[k] != x,
    {
        if v[i] == x {
            return true;
        }
    }
    false
}

/// `s`, sorted by id, with `v` inserted in its place.
fn insert_sorted(s: &Vec<OperationId>, v: OperationId) -> (r: Vec<OperationId>)
    requires
        forall|i: int, j: int| 0 <= i < j < s.len() ==> s@[i].0 < s@[j].0,
        !s@.contains(v),
    ensures
        r.len() == s.len() + 1,
        forall|i: int, j: int| 0 <= i < j < r.len() ==> r@[i].0 < r@[j].0,
        forall|x: OperationId| r@.contains(x) <==> s@.contains(x) || x == v,
{
    let mut r: Vec<OperationId> = Vec::new();
    let mut i: usize = 0;
    while i < s.len() && s[i].0 < v.0
        invariant
            0 <= i <= s.len(),
            r@ == s@.take(i as int),
            forall|k: int| 0 <= k < i ==> s@[k].0 < v.0,
        decreases s.len() - i,
    {
        r.push(s[i]);
        assert(s@.take(i + 1) =~= s@.take(i as int).push(s@[i as int]));
        i = i + 1;
    }
    let cut = i;
    r.push(v);
    let mut j = cut;
    while j < s.len()
        invariant
            cut <= j <= s.len(),
            r@ == s@.take(cut as int).push(v) + s@.subrange(cut as int, j as int),
        decreases s.len() - j,
    {
        r.push(s[j]);
        assert(s@.subrange(cut as int, j + 1) =~= s@.subrange(cut as int, j as int).push(s@[j as int]));
        j = j + 1;
    }
    proof {
        let a = s@.take(cut as int);
        let b = s@.subrange(cut as int, s.len() as int);
        assert(r@ =~= a.push(v) + b);
        assert(s@ =~= a + b);
        if cut < s.len() {
            assert(s@[cut as int] != v);
            assert(s@[cut as int].0 > v.0) by {
                if s@[cut as int].0 == v.0 {
                    assert(s@[cut as int] == v);
                }
            }
        }
        assert forall|x: int, y: int| 0 <= x < y < r.len() implies r@[x].0 < r@[y].0 by {
            if y < cut {
                assert(r@[x] == s@[x] && r@[y] == s@[y]);
            } else if y == cut {
                assert(r@[y] == v);
                assert(r@[x] == s@[x]);
            } else if x < cut {
                assert(r@[x] == s@[x]);
                assert(r@[y] == s@[y - 1]);
                assert(s@[cut as int].0 <= s@[y - 1].0);
            } else if x == cut {
                assert(r@[x] == v);
                assert(r@[y] == s@[y - 1]);
                assert(s@[cut as int].0 <= s@[y - 1].0);
            } else {
                assert(r@[x] == s@[x - 1] && r@[y] == s@[y - 1]);
            }
        }
        assert forall|x: OperationId| r@.contains(x) <==> s@.contains(x) || x == v by {
            if r@.contains(x) {
                let k = choose|k: int| 0 <= k < r.len() && r@[k] == x;
                if k < cut {
                    assert(s@[k] == x);
                } else if k > cut {
                    assert(s@[k - 1] == x);
                }
            }
            if s@.contains(x) {
                let k = choose|k: int| 0 <= k < s.len() && s@[k] == x;
                if k < cut {
                    assert(r@[k] == x);
                } else {
                    assert(r@[k + 1] == x);
                }
            }
            if x == v {
                assert(r@[cut as int] == v);
            }
        }
    }
    r
}

/// A copy of a list of operations.
fn copy_ops(v: &Vec<OperationId>) -> (r: Vec<OperationId>)
    ensures
        r@ == v@,
{
    let mut r: Vec<OperationId> = Vec::new();
    for i in 0..v.len()
        invariant
            r@ == v@.take(i as int),
    {
        r.push(v[i]);
        assert(v@.take(i + 1) =~= v@.take(i as int).push(v@[i as int]));
    }
    assert(v@.take(v.len() as int) =~= v@);
    r
}

/// Whether the two lists are equal.
fn same_ops(a: &Vec<OperationId>, b: &Vec<OperationId>) -> (r: bool)
    ensures
        r == (a@ == b@),
{
    if a.len() != b.len() {
        return false;
    }
    for i in 0..a.len()
        invariant
            a.len() == b.len(),
            forall|k: int| 0 <= k < i ==> a@[k] == b@[k],
    {
        if a[i] != b[i] {
            return false;
        }
    }
    assert(a@ =~= b@);
    true
}

/// Whether `sets` holds a list equal to `s`.
fn holds_set(sets: &Vec<Vec<OperationId>>, s: &Vec<OperationId>) -> (r: bool)
    ensures
        r == exists|k: int| 0 <= k < sets.len() && (#[trigger] sets@[k])@ == s@,
{
    for k in 0..sets.len()
        invariant
            forall|j: int| 0 <= j < k ==> (#[trigger] sets@[j])@ != s@,
    {
        if same_ops(&sets[k], s) {
            return true;
        }
    }
    false
}

/// Every operation of `ps` is executed or in `s`.
fn preds_ready(executed: &Subgraph, s: &Vec<OperationId>, ps: &Vec<OperationId>) -> (r: bool)
    requires
        executed.wf(),
        forall|k: int| 0 <= k < ps.len() ==> (#[trigger] ps@[k]).0 < executed.graph().num_ops(),
    ensures
        r == forall|k: int| 0 <= k < ps.len() ==> executed.has(#[trigger] ps@[k]) || s@.contains(ps@[k]),
{
    for k in 0..ps.len()
        invariant
            executed.wf(),
            forall|k: int| 0 <= k < ps.len() ==> (#[trigger] ps@[k]).0 < executed.graph().num_ops(),
            forall|j: int| 0 <= j < k ==> executed.has(#[trigger] ps@[j]) || s@.contains(ps@[j]),
    {
        if !(executed.contains(ps[k]) || has_op(s, ps[k])) {
            return false;
        }
    }
    true
}

/// Whether some operation of `nbrs` is in `s`.
fn touches(nbrs: &Vec<OperationId>, s: &Vec<OperationId>) -> (r: bool)
    ensures
        r == exists|k: int| 0 <= k < nbrs.len() && s@.contains(#[trigger] nbrs@[k]),
{
    for k in 0..nbrs.len()
        invariant
            forall|j: int| 0 <= j < k ==> !s@.contains(#[trigger] nbrs@[j]),
    {
        if has_op(s, nbrs[k]) {
            return true;
        }
    }
    false
}

/// `preds[w]` lists, for each operation `w` of `sg` below `preds.len()`, its
/// producers in `sg`, and nothing else.
pub open spec fn preds_ok(sg: Subgraph, preds: Seq<Vec<OperationId>>, n: nat) -> bool {
    &&& forall|w: int, p: OperationId|
        0 <= w < preds.len() && sg.has(OperationId(w as usize)) && in_sub_pred(sg, p, OperationId(w as usize))
            ==> #[trigger] preds[w]@.contains(p)
    &&& forall|w: int, k: int|
        0 <= w < preds.len() && 0 <= k < preds[w].len() ==> (#[trigger] preds[w]@[k]).0 < n && in_sub_pred(
            sg,
            preds[w]@[k],
            OperationId(w as usize),
        )
}

/// `nbrs[w]` lists, for each operation `w` of `sg` below `nbrs.len()`, the
/// operations joined to it by a tensor (see `op_adjacent`), and nothing else.
pub open spec fn nbrs_ok(sg: Subgraph, nbrs: Seq<Vec<OperationId>>) -> bool {
    &&& forall|w: int, k: int|
        0 <= w < nbrs.len() && 0 <= k < nbrs[w].len() ==> op_adjacent(sg, OperationId(w as usize), #[trigger] nbrs[w]@[k])
    &&& forall|w: int, x: OperationId|
        0 <= w < nbrs.len() && sg.has(OperationId(w as usize)) && op_adjacent(sg, OperationId(w as usize), x)
            ==> #[trigger] nbrs[w]@.contains(x)
}

/// `a` and `b` hold the same operations.
pub open spec fn same_ops_as(a: Seq<OperationId>, b: Seq<OperationId>) -> bool {
    forall|x: OperationId| a.contains(x) <==> b.contains(x)
}

/// `v` holds a list of the operations of `o`.
pub open spec fn holds_ops(v: Seq<Vec<OperationId>>, o: Seq<OperationId>) -> bool {
    exists|k: int| 0 <= k < v.len() && same_ops_as((#[trigger] v[k])@, o)
}

proof fn lemma_holds_push(v: Seq<Vec<OperationId>>, x: Vec<OperationId>, o: Seq<OperationId>)
    requires
        holds_ops(v, o),
    ensures
        holds_ops(v.push(x), o),
{
    let k = choose|k: int| 0 <= k < v.len() && same_ops_as((#[trigger] v[k])@, o);
    assert(v.push(x)[k] == v[k]);
}

/// A prefix of a growth is a growth.
proof fn lemma_grows_prefix(sg: Subgraph, done: spec_fn(OperationId) -> bool, o: Seq<OperationId>, m: int)
    requires
        grows(sg, done, o),
        1 <= m <= o.len(),
    ensures
        grows(sg, done, o.take(m)),
{
    let t = o.take(m);
    assert forall|i: int| 0 <= i < t.len() implies sg.has(#[trigger] t[i]) && !done(t[i]) by {
        assert(t[i] == o[i]);
    }
    assert forall|i: int, j: int| 0 <= i < j < t.len() implies t[i] != t[j] by {
        assert(t[i] == o[i] && t[j] == o[j]);
    }
    assert(t[0] == o[0]);
    assert forall|i: int| 0 < i < t.len() implies #[trigger] grown_at(sg, t, i) by {
        assert(grown_at(sg, o, i));
        let j = choose|j: int| 0 <= j < i && #[trigger] op_adjacent(sg, o[i], o[j]);
        assert(t[i] == o[i] && t[j] == o[j]);
        assert(op_adjacent(sg, t[i], t[j]));
    }
}

/// Trying the last operation of a growth `o` from a list holding the rest of
/// it passes every test of the search.
proof fn lemma_extension_passes(
    sg: Subgraph,
    ex: Subgraph,
    preds: Seq<Vec<OperationId>>,
    nbrs: Seq<Vec<OperationId>>,
    n: nat,
    s: Seq<OperationId>,
    o: Seq<OperationId>,
)
    requires
        preds_ok(sg, preds, n),
        nbrs_ok(sg, nbrs),
        preds.len() == n,
        nbrs.len() == n,
        sg.wf(),
        n == sg.graph().num_ops(),
        grows(sg, executed_by(ex), o),
        o.len() >= 2,
        same_ops_as(s, o.take(o.len() - 1)),
    ensures
        !ex.has(o.last()),
        !s.contains(o.last()),
        o.last().0 < n,
        exists|k: int| 0 <= k < nbrs[o.last().0 as int].len() && s.contains(#[trigger] nbrs[o.last().0 as int]@[k]),
{
    let m = o.len() - 1;
    let v = o[m];
    assert(o.last() == v);
    assert(sg.has(v) && !executed_by(ex)(v));
    assert(v.0 < n) by {
        let q = choose|q: int| 0 <= q < sg.node_seq().len() && sg.node_seq()[q] == v;
    }
    if s.contains(v) {
        assert(o.take(m).contains(v));
        let j = choose|j: int| 0 <= j < m && o.take(m)[j] == v;
        assert(o[j] == v);
    }
    let w = v.0 as int;
    assert(OperationId(w as usize) == v);
    assert(grown_at(sg, o, m));
    let j = choose|j: int| 0 <= j < m && #[trigger] op_adjacent(sg, o[m], o[j]);
    assert(nbrs[w]@.contains(o[j]));
    let k = choose|k: int| 0 <= k < nbrs[w].len() && nbrs[w]@[k] == o[j];
    assert(o.take(m)[j] == o[j]);
    assert(s.contains(nbrs[w]@[k]));
}

/// Distinct lists of the same operations have the same length.
proof fn lemma_same_ops_len(a: Seq<OperationId>, b: Seq<OperationId>)
    requires
        a.no_duplicates(),
        b.no_duplicates(),
        same_ops_as(a, b),
    ensures
        a.len() == b.len(),
{
    assert(a.to_set() =~= b.to_set());
    a.unique_seq_to_set();
    b.unique_seq_to_set();
}

/// Two lists of operations in increasing id order that hold the same
/// operations are equal.
proof fn lemma_sorted_eq(a: Seq<OperationId>, b: Seq<OperationId>)
    requires
        forall|i: int, j: int| 0 <= i < j < a.len() ==> a[i].0 < a[j].0,
        forall|i: int, j: int| 0 <= i < j < b.len() ==> b[i].0 < b[j].0,
        same_ops_as(a, b),
    ensures
        a == b,
    decreases a.len(),
{
    if a.len() == 0 {
        if b.len() > 0 {
            assert(b.contains(b[0]));
        }
        assert(a =~= b);
    } else {
        assert(a.contains(a[0]));
        let kb = choose|k: int| 0 <= k < b.len() && b[k] == a[0];
        assert(b.contains(b[0]));
        let ka = choose|k: int| 0 <= k < a.len() && a[k] == b[0];
        assert(a[0].0 <= a[ka].0);
        assert(b[0].0 <= b[kb].0);
        assert(a[0] == b[0]);
        let a1 = a.drop_first();
        let b1 = b.drop_first();
        assert forall|x: OperationId| a1.contains(x) <==> b1.contains(x) by {
            if a1.contains(x) {
                let i = choose|i: int| 0 <= i < a1.len() && a1[i] == x;
                assert(a[i + 1] == x);
                assert(a.contains(x));
                let j = choose|j: int| 0 <= j < b.len() && b[j] == x;
                if j == 0 {
                    assert(a[0].0 < a[i + 1].0);
                }
                assert(b1[j - 1] == x);
            }
            if b1.contains(x) {
                let i = choose|i: int| 0 <= i < b1.len() && b1[i] == x;
                assert(b[i + 1] == x);
                assert(b.contains(x));
                let j = choose|j: int| 0 <= j < a.len() && a[j] == x;
                if j == 0 {
                    assert(b[0].0 < b[i + 1].0);
                }
                assert(a1[j - 1] == x);
            }
        }
        lemma_sorted_eq(a1, b1);
        assert forall|i: int| 0 <= i < a.len() implies a[i] == b[i] by {
            if i > 0 {
                assert(a1[i - 1] == b1[i - 1]);
            }
        }
        assert(a =~= b);
    }
}

/// No two lists of `v` are equal.
spec fn distinct_lists(v: Seq<Vec<OperationId>>) -> bool {
    forall|a: int, b: int| 0 <= a < b < v.len() ==> (#[trigger] v[a])@ != (#[trigger] v[b])@
}

/// Every list of `v` is a stage that may run next, of at most `size` operations.
spec fn seen_ok(sg: Subgraph, ex: Subgraph, v: Seq<Vec<OperationId>>, size: nat) -> bool {
    forall|j: int| 0 <= j < v.len() ==> grown_set(sg, ex, (#[trigger] v[j])@) && v[j].len() <= size
}

/// Every list of `v` is a stage that may run next, of exactly `size` operations.
spec fn level_ok(sg: Subgraph, ex: Subgraph, v: Seq<Vec<OperationId>>, size: nat) -> bool {
    forall|j: int| 0 <= j < v.len() ==> grown_set(sg, ex, (#[trigger] v[j])@) && v[j].len() == size
}

/// `v` holds the operations of every growth after `ex` of at most `size` operations.
spec fn covers_upto(sg: Subgraph, ex: Subgraph, v: Seq<Vec<OperationId>>, size: nat) -> bool {
    forall|o: Seq<OperationId>| #[trigger] grows(sg, executed_by(ex), o) && o.len() <= size ==> holds_ops(v, o)
}

/// `v` holds the operations of every growth after `ex` of exactly `size` operations.
spec fn covers_exactly(sg: Subgraph, ex: Subgraph, v: Seq<Vec<OperationId>>, size: nat) -> bool {
    forall|o: Seq<OperationId>| #[trigger] grows(sg, executed_by(ex), o) && o.len() == size ==> holds_ops(v, o)
}

/// Every list of `seen` with `size` operations is also a list of `next`.
spec fn new_in(seen: Seq<Vec<OperationId>>, next: Seq<Vec<OperationId>>, size: nat) -> bool {
    forall|j: int|
        0 <= j < seen.len() && (#[trigger] seen[j]).len() == size ==> exists|m: int|
            0 <= m < next.len() && next[m]@ == seen[j]@
}

/// Lists held by `a` are held by any `b` that starts with `a`.
proof fn lemma_holds_extend(a: Seq<Vec<OperationId>>, b: Seq<Vec<OperationId>>)
    requires
        a.len() <= b.len(),
        forall|j: int| 0 <= j < a.len() ==> b[j] == a[j],
    ensures
        forall|o: Seq<OperationId>| holds_ops(a, o) ==> #[trigger] holds_ops(b, o),
{
    assert forall|o: Seq<OperationId>| holds_ops(a, o) implies #[trigger] holds_ops(b, o) by {
        let k = choose|k: int| 0 <= k < a.len() && same_ops_as((#[trigger] a[k])@, o);
        assert(b[k] == a[k]);
    }
}

/// Adding the last operation of `o` to a list of the rest of `o` gives a list
/// of the operations of `o`.
proof fn lemma_extension_same(s: Seq<OperationId>, t: Seq<OperationId>, o: Seq<OperationId>)
    requires
        o.len() >= 1,
        same_ops_as(s, o.take(o.len() - 1)),
        forall|x: OperationId| t.contains(x) <==> s.contains(x) || x == o.last(),
    ensures
        same_ops_as(t, o),
{
    let m = o.len() - 1;
    assert forall|x: OperationId| t.contains(x) <==> o.contains(x) by {
        if o.contains(x) && x != o.last() {
            let i = choose|i: int| 0 <= i < o.len() && o[i] == x;
            assert(o.take(m)[i] == x);
        }
        if o.take(m).contains(x) {
            let i = choose|i: int| 0 <= i < m && o.take(m)[i] == x;
            assert(o[i] == x);
        }
    }
}

/// A growth after `ex` holds no operation twice.
proof fn lemma_growth_distinct(sg: Subgraph, ex: Subgraph, o: Seq<OperationId>)
    requires
        grows(sg, executed_by(ex), o),
    ensures
        o.no_duplicates(),
{
    assert forall|i: int, j: int| 0 <= i < o.len() && 0 <= j < o.len() && i != j implies o[i] != o[j] by {
        if j < i {
            assert(o[j] != o[i]);
        }
    }
}

/// The stages of `size + 1` operations grown from those of `level` by one
/// more operation. Each new one is added to `seen`, and the lists returned
/// are the new ones.
fn extend_stages<'a>(
    subgraph: &Subgraph<'a>,
    executed: &Subgraph<'a>,
    preds: &Vec<Vec<OperationId>>,
    neighbors: &Vec<Vec<OperationId>>,
    level: &Vec<Vec<OperationId>>,
    seen: &mut Vec<Vec<OperationId>>,
    size: usize,
) -> (next: Vec<Vec<OperationId>>)
    requires
        subgraph.wf(),
        subgraph.graph().is_acyclic(),
        executed.wf(),
        executed.graph() == subgraph.graph(),
        preds.len() == subgraph.graph().num_ops(),
        neighbors.len() == subgraph.graph().num_ops(),
        preds_ok(*subgraph, preds@, subgraph.graph().num_ops() as nat),
        nbrs_ok(*subgraph, neighbors@),
        1 <= size < MAX_STAGE_SIZE,
        level_ok(*subgraph, *executed, level@, size as nat),
        covers_exactly(*subgraph, *executed, level@, size as nat),
        seen_ok(*subgraph, *executed, old(seen)@, size as nat),
        covers_upto(*subgraph, *executed, old(seen)@, size as nat),
        distinct_lists(old(seen)@),
    ensures
        distinct_lists(final(seen)@),
        level_ok(*subgraph, *executed, next@, (size + 1) as nat),
        covers_exactly(*subgraph, *executed, next@, (size + 1) as nat),
        seen_ok(*subgraph, *executed, final(seen)@, (size + 1) as nat),
        covers_upto(*subgraph, *executed, final(seen)@, (size + 1) as nat),
{
    let ghost sg = *subgraph;
    let ghost ex = *executed;
    let ghost g = sg.graph();
    let ghost done = executed_by(ex);
    let ghost n = g.num_ops();
    let nodes = subgraph.nodes();
    let mut next: Vec<Vec<OperationId>> = Vec::new();
    for k in 0..level.len()
        invariant
            subgraph.wf(),
            executed.wf(),
            sg == *subgraph,
            ex == *executed,
            done == executed_by(ex),
            ex.graph() == g,
            g == sg.graph(),
            g.is_acyclic(),
            nodes@ == sg.node_seq(),
            n == g.num_ops(),
            preds.len() == n,
            neighbors.len() == n,
            preds_ok(sg, preds@, n),
            nbrs_ok(sg, neighbors@),
            1 <= size < MAX_STAGE_SIZE,
            level_ok(sg, ex, level@, size as nat),
            level_ok(sg, ex, next@, (size + 1) as nat),
            seen_ok(sg, ex, seen@, (size + 1) as nat),
            new_in(seen@, next@, (size + 1) as nat),
            distinct_lists(seen@),
            covers_upto(sg, ex, seen@, size as nat),
            forall|o: Seq<OperationId>, k2: int|
                #![trigger grows(sg, done, o), level@[k2]]
                0 <= k2 < k && grows(sg, done, o) && o.len() == size + 1 && same_ops_as(level@[k2]@, o.take(size as int))
                    ==> holds_ops(seen@, o),
    {
        let s = &level[k];
        assert(grown_set(sg, ex, s@));
        for i in 0..nodes.len()
            invariant
                subgraph.wf(),
                executed.wf(),
                sg == *subgraph,
                ex == *executed,
                done == executed_by(ex),
                ex.graph() == g,
                g == sg.graph(),
                g.is_acyclic(),
                nodes@ == sg.node_seq(),
                n == g.num_ops(),
                preds.len() == n,
                neighbors.len() == n,
                preds_ok(sg, preds@, n),
                nbrs_ok(sg, neighbors@),
                1 <= size < MAX_STAGE_SIZE,
                *s == level@[k as int],
                grown_set(sg, ex, s@),
                s.len() == size,
                level_ok(sg, ex, next@, (size + 1) as nat),
                seen_ok(sg, ex, seen@, (size + 1) as nat),
                new_in(seen@, next@, (size + 1) as nat),
                distinct_lists(seen@),
                covers_upto(sg, ex, seen@, size as nat),
                forall|o: Seq<OperationId>, k2: int|
                    #![trigger grows(sg, done, o), level@[k2]]
                    0 <= k2 < k && grows(sg, done, o) && o.len() == size + 1 && same_ops_as(
                        level@[k2]@,
                        o.take(size as int),
                    ) ==> holds_ops(seen@, o),
                forall|o: Seq<OperationId>, j: int|
                    #![trigger grows(sg, done, o), nodes@[j]]
                    0 <= j < i && grows(sg, done, o) && o.len() == size + 1 && same_ops_as(s@, o.take(size as int))
                        && o[size as int] == nodes@[j] ==> holds_ops(seen@, o),
        {
            let v = nodes[i];
            assert(sg.has(v));
            assert(v.0 < n) by {
                assert(sg.node_seq()[i as int].0 < g.num_ops());
            }
            let ghost seen0 = seen@;
            let ghost next0 = next@;
            let ghost want = exists|o: Seq<OperationId>|
                #[trigger] grows(sg, done, o) && o.len() == size + 1 && same_ops_as(s@, o.take(size as int)) && o[size as int]
                    == v;
            let ok = !executed.contains(v) && !has_op(s, v) && touches(&neighbors[v.0], s);
            proof {
                if want {
                    let o = choose|o: Seq<OperationId>|
                        #[trigger] grows(sg, done, o) && o.len() == size + 1 && same_ops_as(s@, o.take(size as int))
                            && o[size as int] == v;
                    assert(o.len() - 1 == size);
                    lemma_extension_passes(sg, ex, preds@, neighbors@, n, s@, o);
                    assert(o.last() == v);
                    assert(ok);
                }
            }
            if ok {
                let new_s = insert_sorted(s, v);
                let ghost ns = new_s@;
                proof {
                    assert forall|j: int| 0 <= j < new_s.len() implies sg.has(#[trigger] new_s@[j]) && !ex.has(
                        new_s@[j],
                    ) by {
                        let x = new_s@[j];
                        assert(new_s@.contains(x));
                        if x != v {
                            assert(s@.contains(x));
                            let q = choose|q: int| 0 <= q < s.len() && s@[q] == x;
                            assert(sg.has(s@[q]));
                        }
                    }
                    let kk = choose|kk: int|
                        0 <= kk < neighbors@[v.0 as int].len() && s@.contains(#[trigger] neighbors@[v.0 as int]@[kk]);
                    let w = neighbors@[v.0 as int]@[kk];
                    assert(OperationId(v.0 as usize) == v);
                    assert(op_adjacent(sg, v, w));
                    lemma_grown_push(sg, executed_by(ex), s@, v, w, new_s@);
                    assert(grown_set(sg, ex, new_s@));
                }
                if !holds_set(seen, &new_s) {
                    let ghost sv0 = seen@;
                    seen.push(copy_ops(&new_s));
                    next.push(new_s);
                    proof {
                        assert(seen@[seen.len() - 1]@ == ns);
                        assert forall|a: int, b: int| 0 <= a < b < seen.len() implies (#[trigger] seen@[a])@ != (
                        #[trigger] seen@[b])@ by {
                            assert(seen@[a] == sv0[a]);
                            if b < sv0.len() {
                                assert(seen@[b] == sv0[b]);
                            }
                        }
                    }
                }
                proof {
                    assert(exists|j: int| 0 <= j < seen.len() && (#[trigger] seen@[j])@ == ns) by {
                        if seen@.len() == seen0.len() {
                            let j = choose|j: int| 0 <= j < seen0.len() && (#[trigger] seen0[j])@ == ns;
                            assert(seen@[j] == seen0[j]);
                        } else {
                            assert(seen@[seen.len() - 1]@ == ns);
                        }
                    }
                    let j = choose|j: int| 0 <= j < seen.len() && (#[trigger] seen@[j])@ == ns;
                    assert forall|o: Seq<OperationId>|
                        #[trigger] grows(sg, done, o) && o.len() == size + 1 && same_ops_as(s@, o.take(size as int))
                            && o[size as int] == v implies holds_ops(seen@, o) by {
                        assert(o.last() == v);
                        lemma_extension_same(s@, ns, o);
                        assert(same_ops_as(seen@[j]@, o));
                    }
                }
            }
            proof {
                lemma_holds_extend(seen0, seen@);
                assert forall|j: int| 0 <= j < seen.len() implies grown_set(sg, ex, (#[trigger] seen@[j])@) && seen@[j].len()
                    <= size + 1 by {
                    if j < seen0.len() {
                        assert(seen@[j] == seen0[j]);
                    }
                }
                assert forall|j: int| 0 <= j < next.len() implies grown_set(sg, ex, (#[trigger] next@[j])@)
                    && next@[j].len() == size + 1 by {
                    if j < next0.len() {
                        assert(next@[j] == next0[j]);
                    }
                }
                assert forall|j: int| 0 <= j < seen.len() && (#[trigger] seen@[j]).len() == size + 1 implies exists|m: int|
                    0 <= m < next.len() && next@[m]@ == seen@[j]@ by {
                    if j < seen0.len() {
                        assert(seen@[j] == seen0[j]);
                        let m = choose|m: int| 0 <= m < next0.len() && next0[m]@ == seen0[j]@;
                        assert(next@[m] == next0[m]);
                    } else {
                        assert(next@[next.len() - 1]@ == seen@[j]@);
                    }
                }
                assert forall|o: Seq<OperationId>, j: int|
                    #![trigger grows(sg, done, o), nodes@[j]]
                    0 <= j < i + 1 && grows(sg, done, o) && o.len() == size + 1 && same_ops_as(s@, o.take(size as int))
                        && o[size as int] == nodes@[j] implies holds_ops(seen@, o) by {
                    if j < i {
                        assert(holds_ops(seen0, o));
                    } else {
                        assert(want);
                    }
                }
            }
        }
        proof {
            assert forall|o: Seq<OperationId>, k2: int|
                #![trigger grows(sg, done, o), level@[k2]]
                0 <= k2 < k + 1 && grows(sg, done, o) && o.len() == size + 1 && same_ops_as(level@[k2]@, o.take(size as int))
                    implies holds_ops(seen@, o) by {
                if k2 == k {
                    assert(sg.has(o[size as int]));
                    let j = choose|j: int| 0 <= j < sg.node_seq().len() && sg.node_seq()[j] == o[size as int];
                    assert(nodes@[j] == o[size as int]);
                }
            }
        }
    }
    proof {
        assert forall|o: Seq<OperationId>| #[trigger] grows(sg, done, o) && o.len() <= size + 1 implies holds_ops(seen@, o) by {
            if o.len() == size + 1 {
                lemma_grows_prefix(sg, done, o, size as int);
                assert(o.take(size as int).len() == size);
                assert(holds_ops(level@, o.take(size as int)));
                let k2 = choose|k2: int| 0 <= k2 < level@.len() && same_ops_as((#[trigger] level@[k2])@, o.take(size as int));
            }
        }
        assert forall|o: Seq<OperationId>| #[trigger] grows(sg, done, o) && o.len() == size + 1 implies holds_ops(next@, o) by {
            assert(holds_ops(seen@, o));
            let j = choose|j: int| 0 <= j < seen@.len() && same_ops_as((#[trigger] seen@[j])@, o);
            let sj = seen@[j]@;
            assert(grown_set(sg, ex, sj));
            assert forall|a: int, b: int| 0 <= a < sj.len() && 0 <= b < sj.len() && a != b implies sj[a] != sj[b] by {
                if a < b {
                    assert(sj[a].0 < sj[b].0);
                } else {
                    assert(sj[b].0 < sj[a].0);
                }
            }
            lemma_growth_distinct(sg, ex, o);
            lemma_same_ops_len(sj, o);
            let m = choose|m: int| 0 <= m < next.len() && next@[m]@ == seen@[j]@;
            assert(same_ops_as(next@[m]@, o));
        }
    }
    next
}

/// Whether every producer in `subgraph` of an operation of `s` is executed or
/// in `s`.
fn closed_set(subgraph: &Subgraph, executed: &Subgraph, s: &Vec<OperationId>, preds: &Vec<Vec<OperationId>>) -> (r: bool)
    requires
        subgraph.wf(),
        executed.wf(),
        executed.graph() == subgraph.graph(),
        preds.len() == subgraph.graph().num_ops(),
        preds_ok(*subgraph, preds@, subgraph.graph().num_ops() as nat),
        forall|i: int| 0 <= i < s.len() ==> subgraph.has(#[trigger] s@[i]),
    ensures
        r == closes(*subgraph, executed_by(*executed), s@),
{
    let ghost sg = *subgraph;
    let ghost n = sg.graph().num_ops();
    for i in 0..s.len()
        invariant
            subgraph.wf(),
            executed.wf(),
            sg == *subgraph,
            n == sg.graph().num_ops(),
            executed.graph() == sg.graph(),
            preds.len() == n,
            preds_ok(sg, preds@, n as nat),
            forall|i: int| 0 <= i < s.len() ==> sg.has(#[trigger] s@[i]),
            forall|j: int, p: OperationId| 0 <= j < i && #[trigger] in_sub_pred(sg, p, s@[j]) ==> executed.has(p) || s@.contains(p),
    {
        let op = s[i];
        assert(sg.has(op));
        assert(op.0 < n) by {
            let q = choose|q: int| 0 <= q < sg.node_seq().len() && sg.node_seq()[q] == op;
        }
        assert(OperationId(op.0 as usize) == op);
        if !preds_ready(executed, s, &preds[op.0]) {
            proof {
                let k = choose|k: int|
                    0 <= k < preds@[op.0 as int].len() && !(executed.has(#[trigger] preds@[op.0 as int]@[k]) || s@.contains(
                        preds@[op.0 as int]@[k],
                    ));
                let p = preds@[op.0 as int]@[k];
                assert(in_sub_pred(sg, p, s@[i as int]));
                assert(!(executed_by(*executed)(p) || s@.contains(p)));
            }
            return false;
        }
        proof {
            assert forall|p: OperationId| #[trigger] in_sub_pred(sg, p, s@[i as int]) implies executed.has(p) || s@.contains(p) by {
                assert(preds@[op.0 as int]@.contains(p));
                let k = choose|k: int| 0 <= k < preds@[op.0 as int].len() && preds@[op.0 as int]@[k] == p;
            }
        }
    }
    true
}

/// The stages that may run right after `executed` within `subgraph`: sets of
/// one to `MAX_STAGE_SIZE` operations not yet executed whose predecessors in
/// the subgraph are executed or in the set, and which are connected: grown
/// from a ready operation by adding, one at a time, an operation that shares
/// a tensor with the set. Every such stage is listed, and no two listed
/// stages hold the same operations.
fn enum_next_stages<'a>(subgraph: &Subgraph<'a>, executed: &Subgraph<'a>) -> (r: Vec<Subgraph<'a>>)
    requires
        subgraph.wf(),
        subgraph.graph().is_acyclic(),
        executed.wf(),
        executed.graph() == subgraph.graph(),
    ensures
        forall|k: int| 0 <= k < r.len() ==> is_next_stage(*subgraph, *executed, #[trigger] r@[k]),
        forall|o: Seq<OperationId>|
            #[trigger] grows(*subgraph, executed_by(*executed), o) && o.len() <= MAX_STAGE_SIZE && closes(
                *subgraph,
                executed_by(*executed),
                o,
            ) ==> exists|k: int| 0 <= k < r.len() && same_ops_as(r@[k].node_seq(), o),
        forall|m1: int, m2: int|
            0 <= m1 < m2 < r.len() ==> !same_ops_as(#[trigger] r@[m1].node_seq(), #[trigger] r@[m2].node_seq()),
{
    let graph = subgraph.parent();
    let ghost sg = *subgraph;
    let ghost ex = *executed;
    let ghost g = sg.graph();
    let ghost done = executed_by(ex);
    let n = graph.num_operations();
    let nodes = subgraph.nodes();
    let mut preds: Vec<Vec<OperationId>> = Vec::new();
    let mut neighbors: Vec<Vec<OperationId>> = Vec::new();
    for v in 0..n
        invariant
            subgraph.wf(),
            sg == *subgraph,
            g == sg.graph(),
            *graph == g,
            n == g.num_ops(),
            preds.len() == v,
            neighbors.len() == v,
            preds_ok(sg, preds@, n as nat),
            nbrs_ok(sg, neighbors@),
    {
        let op = OperationId(v);
        let ghost p0 = preds@;
        let ghost b0 = neighbors@;
        if subgraph.contains(op) {
            let ps = sub_preds(subgraph, op);
            let nb = sub_neighbors(subgraph, op);
            proof {
                assert forall|k: int| 0 <= k < ps.len() implies (#[trigger] ps@[k]).0 < n by {
                    let x = ps@[k];
                    let q = choose|q: int| 0 <= q < sg.node_seq().len() && sg.node_seq()[q] == x;
                }
            }
            preds.push(ps);
            neighbors.push(nb);
        } else {
            preds.push(Vec::new());
            neighbors.push(Vec::new());
        }
        proof {
            assert(OperationId(v as usize) == op);
            assert forall|w: int, p: OperationId|
                0 <= w < preds.len() && sg.has(OperationId(w as usize)) && in_sub_pred(sg, p, OperationId(w as usize))
                    implies #[trigger] preds@[w]@.contains(p) by {
                if w < v {
                    assert(preds@[w] == p0[w]);
                }
            }
            assert forall|w: int, k: int| 0 <= w < preds.len() && 0 <= k < preds@[w].len() implies (
            #[trigger] preds@[w]@[k]).0 < n && in_sub_pred(sg, preds@[w]@[k], OperationId(w as usize)) by {
                if w < v {
                    assert(preds@[w] == p0[w]);
                }
            }
            assert forall|w: int, k: int| 0 <= w < neighbors.len() && 0 <= k < neighbors@[w].len() implies op_adjacent(
                sg,
                OperationId(w as usize),
                #[trigger] neighbors@[w]@[k],
            ) by {
                if w < v {
                    assert(neighbors@[w] == b0[w]);
                }
            }
            assert forall|w: int, x: OperationId|
                0 <= w < neighbors.len() && sg.has(OperationId(w as usize)) && op_adjacent(sg, OperationId(w as usize), x)
                    implies #[trigger] neighbors@[w]@.contains(x) by {
                if w < v {
                    assert(neighbors@[w] == b0[w]);
                }
            }
        }
    }
    let mut level: Vec<Vec<OperationId>> = Vec::new();
    for i in 0..nodes.len()
        invariant
            subgraph.wf(),
            executed.wf(),
            sg == *subgraph,
            ex == *executed,
            done == executed_by(ex),
            ex.graph() == g,
            g == sg.graph(),
            nodes@ == sg.node_seq(),
            n == g.num_ops(),
            preds.len() == n,
            neighbors.len() == n,
            preds_ok(sg, preds@, n as nat),
            nbrs_ok(sg, neighbors@),
            g.is_acyclic(),
            forall|k: int| 0 <= k < level.len() ==> grown_set(sg, ex, (#[trigger] level@[k])@) && level@[k].len()
                == 1,
            forall|o: Seq<OperationId>, j: int|
                #![trigger grows(sg, done, o), nodes@[j]]
                0 <= j < i && grows(sg, done, o) && o.len() == 1 && o[0] == nodes@[j] ==> holds_ops(level@, o),
            forall|k: int| 0 <= k < level.len() ==> nodes@.take(i as int).contains((#[trigger] level@[k])@[0]),
            distinct_lists(level@),
    {
        let op = nodes[i];
        assert(sg.has(op));
        assert(op.0 < n) by {
            assert(sg.node_seq()[i as int].0 < g.num_ops());
        }
        let ghost l0 = level@;
        let ghost wanted = exists|o: Seq<OperationId>| #[trigger] grows(sg, done, o) && o.len() == 1 && o[0] == op;
        proof {
            if wanted {
                let o = choose|o: Seq<OperationId>| #[trigger] grows(sg, done, o) && o.len() == 1 && o[0] == op;
                assert(!ex.has(op));
                assert(OperationId(op.0 as usize) == op);
                assert forall|k: int| 0 <= k < preds@[op.0 as int].len() implies ex.has(#[trigger] preds@[op.0 as int]@[k])
                    || seq![op].contains(preds@[op.0 as int]@[k]) by {
                    let p = preds@[op.0 as int]@[k];
                    assert(in_sub_pred(sg, p, o[0]));
                    assert(done(p));
                }
            }
        }
        let single: Vec<OperationId> = vec![op];
        assert(single@ =~= seq![op]);
        let ok = !executed.contains(op) && preds_ready(executed, &single, &preds[op.0]);
        proof {
            if wanted {
                assert(ok);
            }
        }
        if ok {
            proof {
                assert forall|p: OperationId| in_sub_pred(sg, p, op) implies ex.has(p) || single@.contains(p) by {
                    assert(OperationId(op.0 as usize) == op);
                    assert(preds@[op.0 as int]@.contains(p));
                    let k = choose|k: int| 0 <= k < preds@[op.0 as int].len() && preds@[op.0 as int]@[k] == p;
                }
                assert forall|p: OperationId| in_sub_pred(sg, p, op) implies executed_by(ex)(p) || p == op by {
                    assert(ex.has(p) || single@.contains(p));
                }
                lemma_grown_single(sg, executed_by(ex), op, single@);
                assert(grown_set(sg, ex, single@));
            }
            let ghost lv0 = level@;
            level.push(single);
            proof {
                assert forall|a: int, b: int| 0 <= a < b < level.len() implies (#[trigger] level@[a])@ != (
                #[trigger] level@[b])@ by {
                    assert(level@[a] == lv0[a]);
                    if b < lv0.len() {
                        assert(level@[b] == lv0[b]);
                    } else {
                        assert(nodes@.take(i as int).contains(lv0[a]@[0]));
                        let jj = choose|jj: int| 0 <= jj < i && nodes@.take(i as int)[jj] == lv0[a]@[0];
                        assert(nodes@[jj] == lv0[a]@[0]);
                        assert(sg.node_seq()[jj] != sg.node_seq()[i as int]) by {
                            assert(g.pos(sg.node_seq()[jj]) < g.pos(sg.node_seq()[i as int]));
                        }
                        assert(level@[b]@[0] == op);
                    }
                }
            }
        }
        proof {
            assert forall|k: int| 0 <= k < level.len() implies nodes@.take(i + 1).contains((#[trigger] level@[k])@[0]) by {
                if k < l0.len() {
                    assert(level@[k] == l0[k]);
                    assert(nodes@.take(i as int).contains(l0[k]@[0]));
                    let jj = choose|jj: int| 0 <= jj < i && nodes@.take(i as int)[jj] == l0[k]@[0];
                    assert(nodes@.take(i + 1)[jj] == l0[k]@[0]);
                } else {
                    assert(level@[k]@[0] == nodes@[i as int]);
                    assert(nodes@.take(i + 1)[i as int] == nodes@[i as int]);
                }
            }
            assert forall|o: Seq<OperationId>, j: int|
                #![trigger grows(sg, done, o), nodes@[j]]
                0 <= j < i + 1 && grows(sg, done, o) && o.len() == 1 && o[0] == nodes@[j] implies holds_ops(level@, o) by {
                if j < i {
                    if level@ != l0 {
                        lemma_holds_push(l0, level@[level.len() - 1], o);
                        assert(level@ == l0.push(level@[level.len() - 1]));
                    }
                } else {
                    assert(wanted);
                    assert(level@.len() == l0.len() + 1);
                    assert(level@[l0.len() as int]@ == seq![op]);
                    assert(same_ops_as(level@[l0.len() as int]@, o)) by {
                        assert(o =~= seq![op]);
                    }
                }
            }
        }
    }
    proof {
        assert forall|o: Seq<OperationId>| #[trigger] grows(sg, done, o) && o.len() == 1 implies holds_ops(level@, o) by {
            assert(sg.has(o[0]));
            let j = choose|j: int| 0 <= j < sg.node_seq().len() && sg.node_seq()[j] == o[0];
            assert(nodes@[j] == o[0]);
        }
    }
    let mut seen: Vec<Vec<OperationId>> = Vec::new();
    for k in 0..level.len()
        invariant
            seen.len() == k,
            forall|j: int| 0 <= j < k ==> (#[trigger] seen@[j])@ == level@[j]@,
            distinct_lists(level@),
            distinct_lists(seen@),
    {
        let ghost sv0 = seen@;
        seen.push(copy_ops(&level[k]));
        proof {
            assert forall|a: int, b: int| 0 <= a < b < seen.len() implies (#[trigger] seen@[a])@ != (#[trigger] seen@[b])@ by {
                assert(seen@[a]@ == level@[a]@);
                assert(seen@[b]@ == level@[b]@);
            }
        }
    }
    proof {
        assert forall|o: Seq<OperationId>| #[trigger] grows(sg, done, o) && o.len() <= 1 implies holds_ops(seen@, o) by {
            assert(holds_ops(level@, o));
            let k = choose|k: int| 0 <= k < level@.len() && same_ops_as((#[trigger] level@[k])@, o);
            assert(seen@[k]@ == level@[k]@);
        }
        assert forall|j: int| 0 <= j < seen.len() implies grown_set(sg, ex, (#[trigger] seen@[j])@) && seen@[j].len()
            <= 1 by {
            assert(seen@[j]@ == level@[j]@);
        }
    }
    let mut size: usize = 1;
    while size < MAX_STAGE_SIZE
        invariant
            subgraph.wf(),
            executed.wf(),
            sg == *subgraph,
            ex == *executed,
            done == executed_by(ex),
            ex.graph() == g,
            g == sg.graph(),
            *graph == g,
            g.is_acyclic(),
            n == g.num_ops(),
            preds.len() == n,
            neighbors.len() == n,
            preds_ok(sg, preds@, n as nat),
            nbrs_ok(sg, neighbors@),
            1 <= size <= MAX_STAGE_SIZE,
            level_ok(sg, ex, level@, size as nat),
            seen_ok(sg, ex, seen@, size as nat),
            covers_upto(sg, ex, seen@, size as nat),
            covers_exactly(sg, ex, level@, size as nat),
            distinct_lists(seen@),
        decreases MAX_STAGE_SIZE - size,
    {
        level = extend_stages(subgraph, executed, &preds, &neighbors, &level, &mut seen, size);
        size = size + 1;
    }
    let mut r: Vec<Subgraph<'a>> = Vec::new();
    let ghost mut src: Seq<int> = Seq::empty();
    for k in 0..seen.len()
        invariant
            subgraph.wf(),
            executed.wf(),
            sg == *subgraph,
            ex == *executed,
            ex.graph() == g,
            g == sg.graph(),
            *graph == g,
            n == g.num_ops(),
            preds.len() == n,
            preds_ok(sg, preds@, n as nat),
            seen_ok(sg, ex, seen@, MAX_STAGE_SIZE as nat),
            forall|j: int| 0 <= j < r.len() ==> is_next_stage(sg, ex, #[trigger] r@[j]),
            forall|j: int|
                0 <= j < k && closes(sg, executed_by(ex), (#[trigger] seen@[j])@) ==> exists|m: int|
                    0 <= m < r.len() && same_ops_as(r@[m].node_seq(), seen@[j]@),
            distinct_lists(seen@),
            src.len() == r.len(),
            forall|m: int| 0 <= m < r.len() ==> 0 <= #[trigger] src[m] < k && same_ops_as(r@[m].node_seq(), seen@[src[m]]@),
            forall|m1: int, m2: int| 0 <= m1 < m2 < r.len() ==> #[trigger] src[m1] < #[trigger] src[m2],
    {
        assert(grown_set(sg, ex, seen@[k as int]@));
        let ghost r0 = r@;
        if closed_set(subgraph, executed, &seen[k], &preds) {
            let set = copy_ops(&seen[k]);
            proof {
                assert forall|a: int, b: int| 0 <= a < set.len() && 0 <= b < set.len() && a != b implies set@[a]
                    != set@[b] by {
                    if a < b {
                        assert(set@[a].0 < set@[b].0);
                    } else {
                        assert(set@[b].0 < set@[a].0);
                    }
                }
                assert forall|j: int| 0 <= j < set.len() implies (#[trigger] set@[j]).0 < n by {
                    assert(sg.has(set@[j]));
                    let q = choose|q: int| 0 <= q < sg.node_seq().len() && sg.node_seq()[q] == set@[j];
                }
            }
            let ghost sq = set@;
            let stage = Subgraph::from_nodes(graph, set);
            proof {
                assert forall|op: OperationId| #[trigger] stage.has(op) implies sg.has(op) && !ex.has(op) && forall|
                    p: OperationId,
                | in_sub_pred(sg, p, op) ==> ex.has(p) || stage.has(p) by {
                    assert(sq.contains(op));
                    let q = choose|q: int| 0 <= q < sq.len() && sq[q] == op;
                    assert(sg.has(sq[q]));
                    assert forall|p: OperationId| in_sub_pred(sg, p, op) implies ex.has(p) || stage.has(p) by {
                        assert(in_sub_pred(sg, p, sq[q]));
                    }
                }
                assert forall|x: OperationId| sq.contains(x) <==> stage.node_seq().contains(x) by {
                    assert(stage.has(x) == sq.contains(x));
                }
                lemma_grown_same(sg, executed_by(ex), sq, stage.node_seq());
            }
            r.push(stage);
            proof {
                assert(r@[r.len() - 1] == stage);
                assert forall|j: int| 0 <= j < r.len() implies is_next_stage(sg, ex, #[trigger] r@[j]) by {
                    if j < r0.len() {
                        assert(r@[j] == r0[j]);
                    }
                }
                assert forall|j: int|
                    0 <= j < k + 1 && closes(sg, executed_by(ex), (#[trigger] seen@[j])@) implies exists|m: int|
                        0 <= m < r.len() && same_ops_as(r@[m].node_seq(), seen@[j]@) by {
                    if j < k {
                        let m = choose|m: int| 0 <= m < r0.len() && same_ops_as(r0[m].node_seq(), seen@[j]@);
                        assert(r@[m] == r0[m]);
                    } else {
                        assert(same_ops_as(r@[r.len() - 1].node_seq(), seen@[j]@));
                    }
                }
                let src0 = src;
                src = src.push(k as int);
                assert forall|m: int| 0 <= m < r.len() implies 0 <= #[trigger] src[m] < k + 1 && same_ops_as(
                    r@[m].node_seq(),
                    seen@[src[m]]@,
                ) by {
                    if m < r0.len() {
                        assert(r@[m] == r0[m] && src[m] == src0[m]);
                    }
                }
                assert forall|m1: int, m2: int| 0 <= m1 < m2 < r.len() implies #[trigger] src[m1] < #[trigger] src[m2] by {
                    assert(src[m1] == src0[m1]);
                    if m2 < r0.len() {
                        assert(src[m2] == src0[m2]);
                    }
                }
            }
        }
    }
    proof {
        assert forall|m1: int, m2: int| 0 <= m1 < m2 < r.len() implies !same_ops_as(
            #[trigger] r@[m1].node_seq(),
            #[trigger] r@[m2].node_seq(),
        ) by {
            let a = seen@[src[m1]]@;
            let b = seen@[src[m2]]@;
            assert(src[m1] < src[m2]);
            assert(grown_set(sg, ex, a) && grown_set(sg, ex, b));
            if same_ops_as(r@[m1].node_seq(), r@[m2].node_seq()) {
                assert(same_ops_as(a, b));
                lemma_sorted_eq(a, b);
                assert(seen@[src[m1]]@ != seen@[src[m2]]@);
            }
        }
        assert forall|o: Seq<OperationId>|
            #[trigger] grows(*subgraph, executed_by(*executed), o) && o.len() <= MAX_STAGE_SIZE && closes(
                *subgraph,
                executed_by(*executed),
                o,
            ) implies exists|k: int| 0 <= k < r.len() && same_ops_as(r@[k].node_seq(), o) by {
            assert(holds_ops(seen@, o));
            let k = choose|k: int| 0 <= k < seen@.len() && same_ops_as((#[trigger] seen@[k])@, o);
            let sk = seen@[k]@;
            assert(closes(sg, done, sk)) by {
                assert forall|i: int, p: OperationId| 0 <= i < sk.len() && #[trigger] in_sub_pred(sg, p, sk[i]) implies done(
                    p,
                ) || sk.contains(p) by {
                    assert(sk.contains(sk[i]));
                    let io = choose|io: int| 0 <= io < o.len() && o[io] == sk[i];
                    assert(in_sub_pred(sg, p, o[io]));
                }
            }
            let m = choose|m: int| 0 <= m < r.len() && same_ops_as(r@[m].node_seq(), sk);
        }
    }
    r
}

/// Every selection pending in `frames` names tensors below `nt`.
pub open spec fn frames_within(frames: Seq<(Seq<TensorId>, usize, i64)>, nt: nat) -> bool {
    forall|k: int, m: int| 0 <= k < frames.len() && 0 <= m < frames[k].0.len() ==> (#[trigger] frames[k].0[m]).0 < nt
}

proof fn lemma_expand_within(candidates: Seq<(TensorId, i64)>, top: (Seq<TensorId>, usize, i64), hi: int, nt: nat)
    requires
        forall|c: int| 0 <= c < candidates.len() ==> (#[trigger] candidates[c]).0 .0 < nt,
        forall|m: int| 0 <= m < top.0.len() ==> (#[trigger] top.0[m]).0 < nt,
    ensures
        frames_within(expand_frame(candidates, top, hi), nt),
    decreases hi,
{
    if hi > top.1 && hi <= candidates.len() {
        lemma_expand_within(candidates, top, hi - 1, nt);
        let i = hi - 1;
        let (tid, size) = candidates[i];
        let here = if size <= top.2 {
            seq![(top.0.push(tid), (i + 1) as usize, (top.2 - size) as i64)]
        } else {
            Seq::empty()
        };
        let rest = expand_frame(candidates, top, hi - 1);
        let all = here + rest;
        assert forall|k: int, m: int| 0 <= k < all.len() && 0 <= m < all[k].0.len() implies (#[trigger] all[k].0[m]).0
            < nt by {
            if k < here.len() {
                assert(all[k] == here[k]);
                if m < top.0.len() {
                    assert(top.0.push(tid)[m] == top.0[m]);
                } else {
                    assert(top.0.push(tid)[m] == tid);
                }
            } else {
                assert(all[k] == rest[k - here.len()]);
            }
        }
    }
}

/// Sum of the latencies, or `None` when an addition would overflow.
fn latency_total_checked(latencies: &Vec<(TensorId, Vec<PerformanceMetric>)>) -> (r: Option<Rational>)
    requires
        all_wf(latencies@),
    ensures
        r matches Some(x) ==> x.pair() == latency_sum(latencies@) && x.denom > 0,
        r is None <==> !sum_fits(latencies@),
{
    let ghost l = latencies@;
    let mut acc = fraction_from_int(0);
    assert(l.take(0) =~= Seq::<(TensorId, Vec<PerformanceMetric>)>::empty());
    for i in 0..latencies.len()
        invariant
            l == latencies@,
            all_wf(l),
            acc.pair() == latency_sum(l.take(i as int)),
            acc.denom > 0,
            sum_fits(l.take(i as int)),
    {
        let ms = &latencies[i].1;
        let ghost base = latency_sum(l.take(i as int));
        proof {
            let t1 = l.take(i + 1);
            assert(t1.drop_last() =~= l.take(i as int));
            assert(t1.last() == l[i as int]);
            assert(ms@.take(0) =~= Seq::<PerformanceMetric>::empty());
        }
        for j in 0..ms.len()
            invariant
                l == latencies@,
                all_wf(l),
                0 <= i < l.len(),
                *ms == l[i as int].1,
                base == latency_sum(l.take(i as int)),
                acc.pair() == fold_metrics(base, ms@.take(j as int)),
                acc.denom > 0,
                sum_fits(l.take(i as int)),
                fold_fits(base, ms@.take(j as int)),
        {
            proof {
                let t1 = ms@.take(j + 1);
                assert(t1.drop_last() =~= ms@.take(j as int));
                assert(t1.last() == ms@[j as int]);
                assert(l[i as int].1@[j as int].wf());
            }
            let lat = ms[j].latency();
            acc = match rational_add_checked(acc, lat) {
                Some(x) => x,
                None => {
                    proof {
                        assert(!add_fits(fold_metrics(base, ms@.take(j as int)), metric_latency(ms@[j as int])));
                        if sum_fits(l) {
                            lemma_sum_fits_prefix(l, i + 1);
                            lemma_fold_fits_prefix(base, ms@, j + 1);
                        }
                    }
                    return None;
                },
            };
            proof {
                let t1 = ms@.take(j + 1);
                assert(fold_fits(base, t1));
            }
        }
        proof {
            assert(ms@.take(ms.len() as int) =~= ms@);
            let t1 = l.take(i + 1);
            assert(t1.drop_last() =~= l.take(i as int));
            assert(t1.last() == l[i as int]);
            assert(sum_fits(t1));
        }
    }
    assert(l.take(l.len() as int) =~= l);
    Some(acc)
}

/// Total number of elements of the tensors `ids`, each counted as often as
/// it is listed.
pub open spec fn ids_size(g: ComputationGraph, ids: Seq<TensorId>) -> int
    decreases ids.len(),
{
    if ids.len() == 0 {
        0
    } else {
        ids_size(g, ids.drop_last()) + g.tensor_seq()[ids.last().0 as int].spec_size()
    }
}

/// The elements of a prefix of `ids` are at most those of all of `ids`.
proof fn lemma_ids_size_prefix(g: ComputationGraph, ids: Seq<TensorId>, q: int)
    requires
        dims_bounded(g),
        forall|k: int| 0 <= k < ids.len() ==> (#[trigger] ids[k]).0 < g.num_tensors(),
        0 <= q <= ids.len(),
    ensures
        ids_size(g, ids.take(q)) <= ids_size(g, ids),
    decreases ids.len() - q,
{
    if q < ids.len() {
        let d = ids.drop_last();
        lemma_ids_size_prefix(g, d, q);
        assert(d.take(q) =~= ids.take(q));
        let t = g.tensor_seq()[ids.last().0 as int];
        assert(ids.last() == ids[ids.len() - 1]);
        assert(0 <= t.width * t.height) by (nonlinear_arith)
            requires
                0 <= t.width,
                0 <= t.height,
        ;
    } else {
        assert(ids.take(q) =~= ids);
    }
}

/// Elements of the given tensors, or `None` when the sum leaves `i64`.
fn tensors_size(graph: &ComputationGraph, ids: &Vec<TensorId>) -> (r: Option<i64>)
    requires
        graph.wf(),
        dims_bounded(*graph),
        forall|k: int| 0 <= k < ids.len() ==> (#[trigger] ids@[k]).0 < graph.num_tensors(),
    ensures
        r matches Some(x) ==> x >= 0 && x == ids_size(*graph, ids@),
        r is None <==> ids_size(*graph, ids@) > i64::MAX,
{
    let mut total: i64 = 0;
    assert(ids@.take(0) =~= Seq::<TensorId>::empty());
    for k in 0..ids.len()
        invariant
            graph.wf(),
            dims_bounded(*graph),
            forall|k: int| 0 <= k < ids.len() ==> (#[trigger] ids@[k]).0 < graph.num_tensors(),
            total >= 0,
            total == ids_size(*graph, ids@.take(k as int)),
    {
        let t = graph.tensors()[ids[k].0];
        assert(t == graph.tensor_seq()[ids@[k as int].0 as int]);
        assert(0 <= t.width * t.height <= MAX_DIM * MAX_DIM) by (nonlinear_arith)
            requires
                0 <= t.width <= MAX_DIM,
                0 <= t.height <= MAX_DIM,
        ;
        let size = t.size();
        proof {
            let t1 = ids@.take(k + 1);
            assert(t1.drop_last() =~= ids@.take(k as int));
            assert(t1.last() == ids@[k as int]);
            assert(ids_size(*graph, t1) == total + size);
        }
        if size > i64::MAX - total {
            proof {
                lemma_ids_size_prefix(*graph, ids@, k + 1);
            }
            return None;
        }
        total = total + size;
    }
    assert(ids@.take(ids.len() as int) =~= ids@);
    Some(total)
}

/// Whether `a` and `b` list the same tensors in the same order.
fn same_ids(a: &Vec<TensorId>, b: &Vec<TensorId>) -> (r: bool)
    ensures
        r == (a@ == b@),
{
    if a.len() != b.len() {
        return false;
    }
    for i in 0..a.len()
        invariant
            a.len() == b.len(),
            forall|k: int| 0 <= k < i ==> a@[k] == b@[k],
    {
        if a[i] != b[i] {
            return false;
        }
    }
    assert(a@ =~= b@);
    true
}

/// What the stage search of `sg` may assume: the model fits the machine, and
/// every part of `sg` can be costed at every candidate tile of `sg`.
pub open spec fn local_fits(sg: Subgraph, dev: DeviceParameters) -> bool {
    &&& model_fits(sg.graph(), dev)
    &&& forall|s: Subgraph, c: (i64, i64, i64)|
        s.graph() == sg.graph() && s.wf() && (forall|x: OperationId| s.has(x) ==> sg.has(x))
            && crate::tiling::is_candidate(sg, dev, c) && 1 <= c.0 <= MAX_DIM && 1 <= c.1 <= MAX_DIM && 1 <= c.2
            <= MAX_DIM ==> #[trigger] latency_pre(s, dev, c)
}

/// Reaching state `after` from state `before` (latencies `c0` and `c1`) runs
/// `stage`, the operations `after` adds, at the best tile for the subgraph
/// with the outputs both keep, and costs the stage's latency.
pub open spec fn step_ok<'a>(
    sg: Subgraph,
    dev: DeviceParameters,
    before: Partition<'a>,
    after: Partition<'a>,
    c0: Rational,
    c1: Rational,
    stage: Subgraph<'a>,
) -> bool {
    let retained = before.retained_outputs@ + after.retained_outputs@;
    &&& before.subgraph.node_seq().len() < after.subgraph.node_seq().len()
    &&& is_best(sg, dev, retained, after.tile_size)
    &&& stage.wf()
    &&& stage.graph() == sg.graph()
    &&& forall|x: OperationId| before.subgraph.has(x) ==> after.subgraph.has(x)
    &&& forall|x: OperationId| stage.has(x) <==> after.subgraph.has(x) && !before.subgraph.has(x)
    &&& is_next_stage(sg, before.subgraph, stage)
    &&& c1.pair() == frac_add(c0.pair(), stage_cost(stage, dev, after.tile_size, retained))
    &&& stage_cost(stage, dev, after.tile_size, retained).1 > 0
}

/// The execution states found so far: each is a set of executed operations
/// of the subgraph with the outputs it keeps and its tile, the best latency
/// reaching it, the state it was reached from and the stage run to reach it.
/// The start state executes nothing at no latency.
pub open spec fn states_ok<'a>(
    sg: Subgraph,
    dev: DeviceParameters,
    states: Seq<Partition<'a>>,
    costs: Seq<Rational>,
    parents: Seq<Option<usize>>,
    stages: Seq<Subgraph<'a>>,
) -> bool {
    let g = sg.graph();
    &&& costs.len() == states.len()
    &&& parents.len() == states.len()
    &&& stages.len() == states.len()
    &&& forall|j: int|
        0 <= j < states.len() ==> (#[trigger] states[j]).subgraph.wf() && states[j].subgraph.graph() == g
            && costs[j].denom > 0 && (forall|k: int|
            0 <= k < states[j].retained_outputs.len() ==> (#[trigger] states[j].retained_outputs@[k]).0
                < g.num_tensors()) && (forall|x: OperationId| states[j].subgraph.has(x) ==> sg.has(x))
    &&& forall|j: int|
        0 <= j < states.len() && (#[trigger] parents[j]) is None ==> states[j].retained_outputs.len() == 0
            && states[j].subgraph.node_seq().len() == 0 && costs[j].pair() == zero_pair()
    &&& forall|j: int|
        0 <= j < states.len() && (#[trigger] parents[j]) is Some ==> 0 <= parents[j].unwrap() < states.len() && step_ok(
            sg,
            dev,
            states[parents[j].unwrap() as int],
            states[j],
            costs[parents[j].unwrap() as int],
            costs[j],
            stages[j],
        )
}

/// Every state reached from another was reached from one of at most `m`
/// operations.
pub open spec fn parents_upto<'a>(states: Seq<Partition<'a>>, parents: Seq<Option<usize>>, m: int) -> bool {
    forall|j: int|
        0 <= j < states.len() && (#[trigger] parents[j]) is Some ==> states[parents[j].unwrap() as int].subgraph.node_seq().len()
            <= m
}

/// `a` and `b` are the same execution state: the same operations executed,
/// the same tensors kept, in the same order, and the same tile.
pub open spec fn same_state<'a>(a: Partition<'a>, b: Partition<'a>) -> bool {
    &&& a.subgraph.node_seq() == b.subgraph.node_seq()
    &&& a.retained_outputs@ == b.retained_outputs@
    &&& a.tile_size == b.tile_size
}

/// `f` is the first entry of `states` that is the same state as `part`.
pub open spec fn first_same<'a>(states: Seq<Partition<'a>>, part: Partition<'a>, f: int) -> bool {
    &&& 0 <= f < states.len()
    &&& same_state(states[f], part)
    &&& forall|g: int| 0 <= g < f ==> !same_state(states[g], part)
}

/// Records reaching `part` by running `stage` from state `parent` at latency
/// `lat`, unless that state is already reached at no greater latency.
fn record_state<'a>(
    subgraph: &Subgraph<'a>,
    device_params: &DeviceParameters,
    states: &mut Vec<Partition<'a>>,
    costs: &mut Vec<Rational>,
    parents: &mut Vec<Option<usize>>,
    stage_of: &mut Vec<Subgraph<'a>>,
    part: Partition<'a>,
    stage: Subgraph<'a>,
    lat: Rational,
    parent: usize,
)
    requires
        states_ok(*subgraph, *device_params, old(states)@, old(costs)@, old(parents)@, old(stage_of)@),
        parents_upto(old(states)@, old(parents)@, old(states)@[parent as int].subgraph.node_seq().len() as int),
        parent < old(states).len(),
        lat.denom > 0,
        part.subgraph.wf(),
        part.subgraph.graph() == subgraph.graph(),
        forall|k: int| 0 <= k < part.retained_outputs.len() ==> (#[trigger] part.retained_outputs@[k]).0
            < subgraph.graph().num_tensors(),
        forall|x: OperationId| part.subgraph.has(x) ==> subgraph.has(x),
        step_ok(*subgraph, *device_params, old(states)@[parent as int], part, old(costs)@[parent as int], lat, stage),
    ensures
        states_ok(*subgraph, *device_params, final(states)@, final(costs)@, final(parents)@, final(stage_of)@),
        parents_upto(final(states)@, final(parents)@, old(states)@[parent as int].subgraph.node_seq().len() as int),
        final(states).len() >= old(states).len(),
        forall|j: int| 0 <= j < old(states).len() ==> final(states)@[j] == old(states)@[j],
        forall|j: int|
            0 <= j < old(states).len() && old(states)@[j].subgraph.node_seq().len() <= old(states)@[
                parent as int
            ].subgraph.node_seq().len() ==> final(costs)@[j] == old(costs)@[j],
        forall|f: int|
            #[trigger] first_same(old(states)@, part, f) ==> if !frac_le(old(costs)@[f].pair(), lat.pair()) {
                &&& final(states)@ == old(states)@
                &&& final(costs)@ == old(costs)@.update(f, lat)
                &&& final(parents)@ == old(parents)@.update(f, Some(parent))
                &&& final(stage_of)@ == old(stage_of)@.update(f, stage)
            } else {
                &&& final(states)@ == old(states)@
                &&& final(costs)@ == old(costs)@
                &&& final(parents)@ == old(parents)@
                &&& final(stage_of)@ == old(stage_of)@
            },
        (forall|g: int| 0 <= g < old(states).len() ==> !same_state(#[trigger] old(states)@[g], part)) ==> if !frac_le(
            (i64::MAX as nat, 1nat),
            lat.pair(),
        ) {
            &&& final(states)@ == old(states)@.push(part)
            &&& final(costs)@ == old(costs)@.push(lat)
            &&& final(parents)@ == old(parents)@.push(Some(parent))
            &&& final(stage_of)@ == old(stage_of)@.push(stage)
        } else {
            &&& final(states)@ == old(states)@
            &&& final(costs)@ == old(costs)@
            &&& final(parents)@ == old(parents)@
            &&& final(stage_of)@ == old(stage_of)@
        },
        forall|j: int| 0 <= j < old(states).len() ==> frac_le(final(costs)@[j].pair(), old(costs)@[j].pair()),
        forall|j: int| old(states).len() <= j < final(states).len() ==> final(states)@[j] == part,
        !frac_le((i64::MAX as nat, 1nat), lat.pair()) ==> exists|j: int|
            0 <= j < final(states).len() && same_state(#[trigger] final(states)@[j], part) && frac_le(
                final(costs)@[j].pair(),
                lat.pair(),
            ),
{
    let ghost sg = *subgraph;
    let ghost dev = *device_params;
    let ghost m = states@[parent as int].subgraph.node_seq().len() as int;
    let mut found: Option<usize> = None;
    for j in 0..states.len()
        invariant
            found matches Some(f) ==> f < states.len() && states@[f as int].subgraph.node_seq()
                == part.subgraph.node_seq() && states@[f as int].retained_outputs@ == part.retained_outputs@
                && states@[f as int].tile_size == part.tile_size,
            found matches Some(f) ==> first_same(states@, part, f as int),
            found is None ==> forall|g: int| 0 <= g < j ==> !same_state(#[trigger] states@[g], part),
    {
        if found.is_none() {
            if states[j].subgraph.same_nodes(&part.subgraph) && same_ids(&states[j].retained_outputs, &part.retained_outputs)
                && states[j].tile_size.0 == part.tile_size.0 && states[j].tile_size.1 == part.tile_size.1
                && states[j].tile_size.2 == part.tile_size.2 {
                found = Some(j);
            }
        }
    }
    let threshold = match found {
        Some(f) => costs[f],
        None => fraction_from_int(i64::MAX),
    };
    if !rational_lt(lat, threshold) {
        proof {
            if let Some(f) = found {
                assert(same_state(states@[f as int], part));
                assert(frac_le(costs@[f as int].pair(), lat.pair()));
                assert(exists|j: int|
                    0 <= j < states.len() && same_state(#[trigger] states@[j], part) && frac_le(costs@[j].pair(), lat.pair()));
            }
        }
        return;
    }
    match found {
        Some(f) => {
            let ghost s0 = states@;
            let ghost c0 = costs@;
            let ghost p0 = parents@;
            let ghost st0 = stage_of@;
            assert(s0[f as int].subgraph.node_seq().len() > m);
            costs.set(f, lat);
            parents.set(f, Some(parent));
            stage_of.set(f, stage);
            proof {
                assert(same_state(states@[f as int], part));
                assert(costs@[f as int] == lat);
                assert(frac_le(costs@[f as int].pair(), lat.pair()));
                assert(exists|j: int|
                    0 <= j < states.len() && same_state(#[trigger] states@[j], part) && frac_le(costs@[j].pair(), lat.pair()));
                assert forall|j: int| 0 <= j < states.len() && (#[trigger] parents@[j]) is Some implies 0
                    <= parents@[j].unwrap() < states.len() && step_ok(
                    sg,
                    dev,
                    states@[parents@[j].unwrap() as int],
                    states@[j],
                    costs@[parents@[j].unwrap() as int],
                    costs@[j],
                    stage_of@[j],
                ) by {
                    if j != f {
                        assert(p0[j] == parents@[j]);
                        let q = p0[j].unwrap() as int;
                        assert(s0[q].subgraph.node_seq().len() <= m);
                        assert(q != f);
                        assert(costs@[q] == c0[q] && costs@[j] == c0[j] && stage_of@[j] == st0[j]);
                    } else {
                        assert(states@[f as int].subgraph.node_seq() == part.subgraph.node_seq());
                        assert(states@[f as int].retained_outputs@ == part.retained_outputs@);
                        assert(costs@[parent as int] == c0[parent as int]);
                    }
                }
                assert forall|j: int| 0 <= j < states.len() implies (#[trigger] states@[j]).subgraph.wf()
                    && states@[j].subgraph.graph() == sg.graph() && costs@[j].denom > 0 && (forall|k: int|
                    0 <= k < states@[j].retained_outputs.len() ==> (#[trigger] states@[j].retained_outputs@[k]).0
                        < sg.graph().num_tensors()) && (forall|x: OperationId| states@[j].subgraph.has(x) ==> sg.has(x)) by {
                    if j != f {
                        assert(costs@[j] == c0[j]);
                    }
                }
                assert forall|j: int| 0 <= j < states.len() && (#[trigger] parents@[j]) is None implies states@[j].retained_outputs.len()
                    == 0 && states@[j].subgraph.node_seq().len() == 0 && costs@[j].pair() == zero_pair() by {
                    assert(j != f);
                    assert(parents@[j] == p0[j]);
                    assert(costs@[j] == c0[j]);
                }
                assert forall|j: int| 0 <= j < states.len() && (#[trigger] parents@[j]) is Some implies states@[
                    parents@[j].unwrap() as int
                ].subgraph.node_seq().len() <= m by {
                    if j != f {
                        assert(p0[j] == parents@[j]);
                    }
                }
            }
        },
        None => {
            let ghost n0 = states.len() as int;
            let ghost c0 = costs@;
            let ghost p0 = parents@;
            let ghost st0 = stage_of@;
            let ghost s0 = states@;
            states.push(part);
            costs.push(lat);
            parents.push(Some(parent));
            stage_of.push(stage);
            proof {
                assert(states@[n0] == part);
                assert(same_state(states@[n0], part));
                assert(costs@[n0] == lat);
                assert(frac_le(costs@[n0].pair(), lat.pair()));
                assert forall|j: int| 0 <= j < states.len() implies (#[trigger] states@[j]).subgraph.wf()
                    && states@[j].subgraph.graph() == sg.graph() && costs@[j].denom > 0 && (forall|k: int|
                    0 <= k < states@[j].retained_outputs.len() ==> (#[trigger] states@[j].retained_outputs@[k]).0
                        < sg.graph().num_tensors()) && (forall|x: OperationId| states@[j].subgraph.has(x) ==> sg.has(x)) by {
                    if j < n0 {
                        assert(states@[j] == s0[j]);
                        assert(costs@[j] == c0[j]);
                    }
                }
                assert forall|j: int| 0 <= j < states.len() && (#[trigger] parents@[j]) is None implies states@[j].retained_outputs.len()
                    == 0 && states@[j].subgraph.node_seq().len() == 0 && costs@[j].pair() == zero_pair() by {
                    if j < n0 {
                        assert(parents@[j] == p0[j]);
                        assert(states@[j] == s0[j]);
                        assert(costs@[j] == c0[j]);
                    }
                }
                assert forall|j: int| 0 <= j < states.len() && (#[trigger] parents@[j]) is Some implies 0
                    <= parents@[j].unwrap() < states.len() && step_ok(
                    sg,
                    dev,
                    states@[parents@[j].unwrap() as int],
                    states@[j],
                    costs@[parents@[j].unwrap() as int],
                    costs@[j],
                    stage_of@[j],
                ) by {
                    if j < n0 {
                        assert(parents@[j] == p0[j]);
                        assert(states@[j] == s0[j]);
                        assert(costs@[j] == c0[j]);
                        assert(stage_of@[j] == st0[j]);
                        let q = parents@[j].unwrap() as int;
                        assert(states@[q] == s0[q]);
                        assert(costs@[q] == c0[q]);
                    } else {
                        assert(states@[parent as int] == s0[parent as int]);
                        assert(costs@[parent as int] == c0[parent as int]);
                    }
                }
                assert forall|j: int| 0 <= j < states.len() && (#[trigger] parents@[j]) is Some implies states@[
                    parents@[j].unwrap() as int
                ].subgraph.node_seq().len() <= m by {
                    if j < n0 {
                        assert(parents@[j] == p0[j]);
                        let q = parents@[j].unwrap() as int;
                        assert(states@[q] == s0[q]);
                    } else {
                        assert(states@[parent as int] == s0[parent as int]);
                    }
                }
            }
        },
    }
}

/// The live outputs of a stage with outputs `outs`, in order: those not among
/// the subgraph's outputs `sg_outs`, each with its number of elements.
pub open spec fn live_of(g: ComputationGraph, sg_outs: Seq<TensorId>, outs: Seq<TensorId>) -> Seq<(TensorId, i64)>
    decreases outs.len(),
{
    if outs.len() == 0 {
        Seq::empty()
    } else {
        let prev = live_of(g, sg_outs, outs.drop_last());
        let t = outs.last();
        if sg_outs.contains(t) {
            prev
        } else {
            prev.push((t, g.tensor_seq()[t.0 as int].spec_size() as i64))
        }
    }
}

/// The search takes the step from state `before`, reached at latency `c0`,
/// that runs a stage of the operations `o` (grown as `grows` says, each of its
/// producers executed or in `o`), keeps the
/// selection `rho` of the stage's live outputs and runs at tile `t`: the
/// tensors `before` keeps fit in `i64` and in fast memory, `t` is the best
/// tile for the subgraph with the tensors kept around the stage, and, for a
/// stage with the operations of `o`, it has outputs, `rho` is one of the
/// selections that fit in the fast memory left, and its latency and the
/// latency reached fit the fraction arithmetic, the latter below `i64::MAX`.
pub open spec fn step_allowed<'a>(
    sg: Subgraph,
    dev: DeviceParameters,
    before: Partition<'a>,
    c0: (nat, nat),
    o: Seq<OperationId>,
    rho: Seq<TensorId>,
    t: (i64, i64, i64),
) -> bool {
    let g = sg.graph();
    let rprev = before.retained_outputs@;
    let reserved = ids_size(g, rprev);
    let retained = rprev + rho;
    &&& grows(sg, executed_by(before.subgraph), o)
    &&& closes(sg, executed_by(before.subgraph), o)
    &&& o.len() <= MAX_STAGE_SIZE
    &&& reserved <= i64::MAX
    &&& dev.fast_memory_capacity - reserved >= 0
    &&& sg.output_seq().len() > 0
    &&& is_best(sg, dev, retained, t)
    &&& forall|s: Subgraph|
        s.wf() && s.graph() == g && #[trigger] same_ops_as(s.node_seq(), o) ==> {
            &&& s.output_seq().len() > 0
            &&& enumeration(
                live_of(g, sg.output_seq(), s.output_seq()),
                seq![(Seq::<TensorId>::empty(), 0usize, (dev.fast_memory_capacity - reserved) as i64)],
            ).contains(rho)
            &&& forall|l: Seq<(TensorId, Vec<PerformanceMetric>)>| #[trigger]
                latency_result(l, s, dev, t, retained) ==> sum_fits(l)
            &&& !frac_le((i64::MAX as nat, 1nat), frac_add(c0, stage_cost(s, dev, t, retained)))
        }
}

/// Some state records the step: it executes the operations of `before` and
/// of `o`, keeps `rho`, runs at tile `t`, and its latency is at most that of
/// the step for a stage with the operations of `o`.
pub open spec fn step_recorded<'a>(
    sg: Subgraph,
    dev: DeviceParameters,
    states: Seq<Partition<'a>>,
    costs: Seq<Rational>,
    before: Partition<'a>,
    c0: (nat, nat),
    o: Seq<OperationId>,
    rho: Seq<TensorId>,
    t: (i64, i64, i64),
) -> bool {
    exists|j: int, s: Subgraph|
        #![trigger states[j], stage_cost(s, dev, t, before.retained_outputs@ + rho)]
        0 <= j < states.len() && s.wf() && s.graph() == sg.graph() && same_ops_as(s.node_seq(), o) && (forall|
            x: OperationId,
        | #[trigger] states[j].subgraph.has(x) <==> before.subgraph.has(x) || o.contains(x)) && states[j].retained_outputs@
            == rho && states[j].tile_size == t && frac_le(
            costs[j].pair(),
            frac_add(c0, stage_cost(s, dev, t, before.retained_outputs@ + rho)),
        )
}

/// A recorded step stays recorded when states are only added and latencies
/// only lowered.
proof fn lemma_recorded_kept<'a>(
    sg: Subgraph,
    dev: DeviceParameters,
    s0: Seq<Partition<'a>>,
    k0: Seq<Rational>,
    s1: Seq<Partition<'a>>,
    k1: Seq<Rational>,
    before: Partition<'a>,
    c0: (nat, nat),
    o: Seq<OperationId>,
    rho: Seq<TensorId>,
    t: (i64, i64, i64),
)
    requires
        step_recorded(sg, dev, s0, k0, before, c0, o, rho, t),
        s0.len() <= s1.len(),
        k0.len() == s0.len(),
        k1.len() == s1.len(),
        forall|j: int| 0 <= j < s0.len() ==> s1[j] == s0[j],
        forall|j: int| 0 <= j < s0.len() ==> frac_le(k1[j].pair(), k0[j].pair()),
        forall|j: int| 0 <= j < s1.len() ==> k1[j].denom > 0,
        forall|j: int| 0 <= j < s0.len() ==> k0[j].denom > 0,
    ensures
        step_recorded(sg, dev, s1, k1, before, c0, o, rho, t),
{
    let (j, s) = choose|j: int, s: Subgraph|
        #![trigger s0[j], stage_cost(s, dev, t, before.retained_outputs@ + rho)]
        0 <= j < s0.len() && s.wf() && s.graph() == sg.graph() && same_ops_as(s.node_seq(), o) && (forall|
            x: OperationId,
        | #[trigger] s0[j].subgraph.has(x) <==> before.subgraph.has(x) || o.contains(x)) && s0[j].retained_outputs@
            == rho && s0[j].tile_size == t && frac_le(
            k0[j].pair(),
            frac_add(c0, stage_cost(s, dev, t, before.retained_outputs@ + rho)),
        );
    let target = frac_add(c0, stage_cost(s, dev, t, before.retained_outputs@ + rho));
    assert(s1[j] == s0[j]);
    if target.1 > 0 {
        crate::rational::lemma_frac_le_trans(k1[j].pair(), k0[j].pair(), target);
    }
    assert(frac_le(k1[j].pair(), target));
    assert(stage_cost(s, dev, t, before.retained_outputs@ + rho) == stage_cost(s, dev, t, before.retained_outputs@ + rho));
}

/// Taking the top frame of the enumeration gives its selection, then the
/// enumeration of the frames left with the top's extensions pushed.
proof fn lemma_enumeration_unfold(candidates: Seq<(TensorId, i64)>, frames: Seq<(Seq<TensorId>, usize, i64)>)
    requires
        frames.len() > 0,
        frames_bounded(candidates, frames),
    ensures
        enumeration(candidates, frames) == seq![frames.last().0] + enumeration(
            candidates,
            frames.drop_last() + expand_frame(candidates, frames.last(), candidates.len() as int),
        ),
{
}

/// Nothing is enumerated from no frame.
proof fn lemma_enumeration_empty(candidates: Seq<(TensorId, i64)>, frames: Seq<(Seq<TensorId>, usize, i64)>)
    requires
        frames.len() == 0,
    ensures
        enumeration(candidates, frames) == Seq::<Seq<TensorId>>::empty(),
{
}

/// `s1`, `k1` extend the states `s0` with latencies `k0`: every state stays
/// in place, no latency rises, and every latency has a positive denominator.
spec fn grew_from<'a>(s0: Seq<Partition<'a>>, k0: Seq<Rational>, s1: Seq<Partition<'a>>, k1: Seq<Rational>) -> bool {
    &&& s0.len() <= s1.len()
    &&& k0.len() == s0.len()
    &&& k1.len() == s1.len()
    &&& forall|j: int| 0 <= j < s0.len() ==> s1[j] == s0[j]
    &&& forall|j: int| 0 <= j < s0.len() ==> frac_le(k1[j].pair(), k0[j].pair())
    &&& forall|j: int| 0 <= j < s1.len() ==> k1[j].denom > 0
    &&& forall|j: int| 0 <= j < s0.len() ==> k0[j].denom > 0
}

/// Every step the search takes with a stage of the operations of one of the
/// first `upto` stages of `stages` is recorded.
spec fn stages_done<'a>(
    sg: Subgraph,
    dev: DeviceParameters,
    states: Seq<Partition<'a>>,
    costs: Seq<Rational>,
    before: Partition<'a>,
    c0: (nat, nat),
    stages: Seq<Subgraph<'a>>,
    upto: int,
) -> bool {
    forall|o: Seq<OperationId>, rho: Seq<TensorId>, t: (i64, i64, i64), k: int|
        #![trigger step_allowed(sg, dev, before, c0, o, rho, t), stages[k]]
        step_allowed(sg, dev, before, c0, o, rho, t) && 0 <= k < upto && same_ops_as(stages[k].node_seq(), o)
            ==> step_recorded(sg, dev, states, costs, before, c0, o, rho, t)
}

/// Every step the search takes with a stage of the operations of `stage`
/// and a selection of `yielded` is recorded.
spec fn selections_done<'a>(
    sg: Subgraph,
    dev: DeviceParameters,
    states: Seq<Partition<'a>>,
    costs: Seq<Rational>,
    before: Partition<'a>,
    c0: (nat, nat),
    stage: Subgraph<'a>,
    yielded: Seq<Seq<TensorId>>,
) -> bool {
    forall|o: Seq<OperationId>, rho: Seq<TensorId>, t: (i64, i64, i64)|
        #[trigger] step_allowed(sg, dev, before, c0, o, rho, t) && same_ops_as(stage.node_seq(), o) && yielded.contains(rho)
            ==> step_recorded(sg, dev, states, costs, before, c0, o, rho, t)
}

/// The states grew from `st_a`, `co_a`, and every step the search takes
/// with a stage of the operations of `stage` and the selection `sel` is
/// recorded.
spec fn sel_done<'a>(
    sg: Subgraph,
    dev: DeviceParameters,
    st_a: Seq<Partition<'a>>,
    co_a: Seq<Rational>,
    states: Seq<Partition<'a>>,
    costs: Seq<Rational>,
    before: Partition<'a>,
    c0: (nat, nat),
    stage: Subgraph<'a>,
    sel: Seq<TensorId>,
) -> bool {
    &&& grew_from(st_a, co_a, states, costs)
    &&& forall|o: Seq<OperationId>, t: (i64, i64, i64)|
        #[trigger] step_allowed(sg, dev, before, c0, o, sel, t) && same_ops_as(stage.node_seq(), o) ==> step_recorded(
            sg,
            dev,
            states,
            costs,
            before,
            c0,
            o,
            sel,
            t,
        )
}

proof fn lemma_done_kept<'a>(
    sg: Subgraph,
    dev: DeviceParameters,
    s0: Seq<Partition<'a>>,
    k0: Seq<Rational>,
    s1: Seq<Partition<'a>>,
    k1: Seq<Rational>,
    before: Partition<'a>,
    c0: (nat, nat),
    stages: Seq<Subgraph<'a>>,
    upto: int,
    stage: Subgraph<'a>,
    yielded: Seq<Seq<TensorId>>,
)
    requires
        grew_from(s0, k0, s1, k1),
        stages_done(sg, dev, s0, k0, before, c0, stages, upto),
        selections_done(sg, dev, s0, k0, before, c0, stage, yielded),
    ensures
        stages_done(sg, dev, s1, k1, before, c0, stages, upto),
        selections_done(sg, dev, s1, k1, before, c0, stage, yielded),
{
    assert forall|o: Seq<OperationId>, rho: Seq<TensorId>, t: (i64, i64, i64), k: int|
        #![trigger step_allowed(sg, dev, before, c0, o, rho, t), stages[k]]
        step_allowed(sg, dev, before, c0, o, rho, t) && 0 <= k < upto && same_ops_as(stages[k].node_seq(), o)
            implies step_recorded(sg, dev, s1, k1, before, c0, o, rho, t) by {
        lemma_recorded_kept(sg, dev, s0, k0, s1, k1, before, c0, o, rho, t);
    }
    assert forall|o: Seq<OperationId>, rho: Seq<TensorId>, t: (i64, i64, i64)|
        #[trigger] step_allowed(sg, dev, before, c0, o, rho, t) && same_ops_as(stage.node_seq(), o) && yielded.contains(rho)
            implies step_recorded(sg, dev, s1, k1, before, c0, o, rho, t) by {
        lemma_recorded_kept(sg, dev, s0, k0, s1, k1, before, c0, o, rho, t);
    }
}

/// `s1`, `k1` grew from `s0`, `k0` (see `grew_from`) by relaxing a state of
/// `m` operations: the latencies of states of at most `m` operations stay,
/// and every new state has more than `m` operations.
spec fn frame_ok<'a>(s0: Seq<Partition<'a>>, k0: Seq<Rational>, s1: Seq<Partition<'a>>, k1: Seq<Rational>, m: int) -> bool {
    &&& grew_from(s0, k0, s1, k1)
    &&& forall|j: int| 0 <= j < s0.len() && s0[j].subgraph.node_seq().len() <= m ==> k1[j] == k0[j]
    &&& forall|j: int| s0.len() <= j < s1.len() ==> (#[trigger] s1[j]).subgraph.node_seq().len() > m
}

proof fn lemma_frame_step<'a>(
    s0: Seq<Partition<'a>>,
    k0: Seq<Rational>,
    s1: Seq<Partition<'a>>,
    k1: Seq<Rational>,
    s2: Seq<Partition<'a>>,
    k2: Seq<Rational>,
    m: int,
)
    requires
        frame_ok(s0, k0, s1, k1, m),
        s2.len() >= s1.len(),
        k2.len() == s2.len(),
        forall|j: int| 0 <= j < s1.len() ==> s2[j] == s1[j],
        forall|j: int| 0 <= j < s1.len() ==> frac_le(k2[j].pair(), k1[j].pair()),
        forall|j: int| 0 <= j < s1.len() && s1[j].subgraph.node_seq().len() <= m ==> k2[j] == k1[j],
        forall|j: int| s1.len() <= j < s2.len() ==> (#[trigger] s2[j]).subgraph.node_seq().len() > m,
        forall|j: int| 0 <= j < s2.len() ==> k2[j].denom > 0,
    ensures
        frame_ok(s0, k0, s2, k2, m),
{
    assert forall|j: int| 0 <= j < s0.len() implies frac_le(k2[j].pair(), k0[j].pair()) by {
        crate::rational::lemma_frac_le_trans(k2[j].pair(), k1[j].pair(), k0[j].pair());
    }
    assert forall|j: int| s0.len() <= j < s2.len() implies (#[trigger] s2[j]).subgraph.node_seq().len() > m by {
        if j < s1.len() {
            assert(s2[j] == s1[j]);
        }
    }
}

/// Relaxing a state had to add the latency `stage_cost(s, ..)` of a stage
/// `s` that may run next, at the best tile `t` with the selection `rho` kept,
/// to the state's latency `c0`, and the fraction sum does not fit `u64`.
pub open spec fn overflow_at<'a>(
    sg: Subgraph,
    dev: DeviceParameters,
    before: Partition<'a>,
    c0: (nat, nat),
    s: Subgraph,
    t: (i64, i64, i64),
    rho: Seq<TensorId>,
) -> bool {
    &&& is_next_stage(sg, before.subgraph, s)
    &&& is_best(sg, dev, before.retained_outputs@ + rho, t)
    &&& !add_fits(c0, stage_cost(s, dev, t, before.retained_outputs@ + rho))
}

/// Extends state `idx` by every stage that may run next and every choice of
/// the stage's outputs to keep, recording each reachable state at its best
/// latency. Gives `false`, and stops, when the latency of a stage cannot be
/// added to the state's latency in `u64` fractions.
#[verifier::spinoff_prover]
#[verifier::rlimit(80)]
fn relax_from<'a>(
    subgraph: &Subgraph<'a>,
    device_params: &DeviceParameters,
    subgraph_outputs: &Vec<TensorId>,
    states: &mut Vec<Partition<'a>>,
    costs: &mut Vec<Rational>,
    parents: &mut Vec<Option<usize>>,
    stage_of: &mut Vec<Subgraph<'a>>,
    idx: usize,
) -> (ok: bool)
    requires
        local_fits(*subgraph, *device_params),
        subgraph.wf(),
        states_ok(*subgraph, *device_params, old(states)@, old(costs)@, old(parents)@, old(stage_of)@),
        idx < old(states).len(),
        parents_upto(old(states)@, old(parents)@, old(states)@[idx as int].subgraph.node_seq().len() as int),
        subgraph_outputs@ == subgraph.output_seq(),
    ensures
        states_ok(*subgraph, *device_params, final(states)@, final(costs)@, final(parents)@, final(stage_of)@),
        parents_upto(final(states)@, final(parents)@, old(states)@[idx as int].subgraph.node_seq().len() as int),
        final(states).len() >= old(states).len(),
        forall|j: int| 0 <= j < old(states).len() ==> final(states)@[j] == old(states)@[j],
        frame_ok(
            old(states)@,
            old(costs)@,
            final(states)@,
            final(costs)@,
            old(states)@[idx as int].subgraph.node_seq().len() as int,
        ),
        !ok ==> exists|s: Subgraph, t: (i64, i64, i64), rho: Seq<TensorId>|
            #[trigger] overflow_at(
                *subgraph,
                *device_params,
                old(states)@[idx as int],
                old(costs)@[idx as int].pair(),
                s,
                t,
                rho,
            ),
        ok ==> forall|o: Seq<OperationId>, rho: Seq<TensorId>, t: (i64, i64, i64)|
            #[trigger] step_allowed(
                *subgraph,
                *device_params,
                old(states)@[idx as int],
                old(costs)@[idx as int].pair(),
                o,
                rho,
                t,
            ) ==> step_recorded(
                *subgraph,
                *device_params,
                final(states)@,
                final(costs)@,
                old(states)@[idx as int],
                old(costs)@[idx as int].pair(),
                o,
                rho,
                t,
            ),
{
    let graph = subgraph.parent();
    let ghost sg = *subgraph;
    let ghost g = sg.graph();
    let ghost dev = *device_params;
    let ghost n0 = states.len();
    let ghost s0 = states@;
    let ghost m = s0[idx as int].subgraph.node_seq().len() as int;
    let ghost k0 = costs@;
    proof {
        assert forall|j: int| 0 <= j < s0.len() implies frac_le(k0[j].pair(), k0[j].pair()) by {
            crate::rational::lemma_frac_le_refl(k0[j].pair());
        }
        assert forall|j: int| 0 <= j < s0.len() implies k0[j].denom > 0 by {
            assert(s0[j].subgraph.wf());
        }
        assert(frame_ok(s0, k0, s0, k0, m));
    }
    let executed = states[idx].subgraph.clone();
    let retained_prev = crate::partition::copy_ids(&states[idx].retained_outputs);
    let latency = costs[idx];
    let ghost before = s0[idx as int];
    let ghost lat0 = latency.pair();
    proof {
        executed.lemma_same_set_same_seq(&executed);
    }
    let stages = enum_next_stages(subgraph, &executed);
    proof {
        assert(executed_by(executed) =~= executed_by(before.subgraph));
        assert forall|o: Seq<OperationId>|
            #[trigger] grows(sg, executed_by(before.subgraph), o) && o.len() <= MAX_STAGE_SIZE && closes(
                sg,
                executed_by(before.subgraph),
                o,
            ) implies exists|k: int| 0 <= k < stages.len() && same_ops_as(stages@[k].node_seq(), o) by {
            assert(grows(sg, executed_by(executed), o));
            assert(closes(sg, executed_by(executed), o));
        }
    }
    for si in 0..stages.len()
        invariant
            local_fits(sg, dev),
            dev == *device_params,
            subgraph.wf(),
            sg == *subgraph,
            g == sg.graph(),
            *graph == g,
            states_ok(sg, dev, states@, costs@, parents@, stage_of@),
            parents_upto(states@, parents@, m),
            m == s0[idx as int].subgraph.node_seq().len(),
            costs@[idx as int] == latency,
            states.len() >= n0,
            idx < n0,
            n0 == s0.len(),
            forall|j: int| 0 <= j < n0 ==> states@[j] == s0[j],
            executed.wf(),
            executed.graph() == g,
            executed.node_seq() == s0[idx as int].subgraph.node_seq(),
            retained_prev@ == s0[idx as int].retained_outputs@,
            forall|k: int| 0 <= k < retained_prev.len() ==> (#[trigger] retained_prev@[k]).0 < g.num_tensors(),
            latency.denom > 0,
            forall|k: int| 0 <= k < stages.len() ==> is_next_stage(sg, executed, #[trigger] stages@[k]),
            before == s0[idx as int],
            lat0 == latency.pair(),
            subgraph_outputs@ == sg.output_seq(),
            forall|o: Seq<OperationId>|
                #[trigger] grows(sg, executed_by(before.subgraph), o) && o.len() <= MAX_STAGE_SIZE && closes(
                    sg,
                    executed_by(before.subgraph),
                    o,
                ) ==> exists|k: int| 0 <= k < stages.len() && same_ops_as(stages@[k].node_seq(), o),
            stages_done(sg, dev, states@, costs@, before, lat0, stages@, si as int),
            frame_ok(s0, k0, states@, costs@, m),
            k0.len() == n0,
            s0 == old(states)@,
            k0 == old(costs)@,
    {
        let stage = &stages[si];
        assert(is_next_stage(sg, executed, *stage));
        let mut new_executed = executed.clone();
        let stage_nodes = stage.nodes();
        for q in 0..stage_nodes.len()
            invariant
                g == sg.graph(),
                new_executed.wf(),
                new_executed.graph() == g,
                stage.wf(),
                stage_nodes@ == stage.node_seq(),
                is_next_stage(sg, executed, *stage),
                forall|x: OperationId| new_executed.has(x) <==> executed.has(x) || stage_nodes@.take(q as int).contains(x),
                new_executed.node_seq().len() == executed.node_seq().len() + q,
        {
            let op = stage_nodes[q];
            proof {
                assert(stage.has(op));
                assert(!executed.has(op));
                if stage_nodes@.take(q as int).contains(op) {
                    let m = choose|m: int| 0 <= m < q && stage_nodes@[m] == op;
                    assert(g.pos(stage_nodes@[m]) < g.pos(stage_nodes@[q as int]));
                }
                assert(stage.node_seq()[q as int].0 < stage.graph().num_ops());
                assert(op.0 < g.num_ops());
                assert(stage_nodes@.take(q + 1) =~= stage_nodes@.take(q as int).push(op));
            }
            let ghost ne0 = new_executed;
            new_executed.insert(op);
            proof {
                assert forall|x: OperationId| new_executed.has(x) <==> executed.has(x) || stage_nodes@.take(q + 1).contains(
                    x,
                ) by {
                    let t0 = stage_nodes@.take(q as int);
                    let t1 = stage_nodes@.take(q + 1);
                    if t1.contains(x) && x != op {
                        let m = choose|m: int| 0 <= m < t1.len() && t1[m] == x;
                        assert(t0[m] == x);
                    }
                    if t0.contains(x) {
                        let m = choose|m: int| 0 <= m < t0.len() && t0[m] == x;
                        assert(t1[m] == x);
                    }
                    if x == op {
                        assert(t1[q as int] == op);
                    }
                }
            }
        }
        assert(stage_nodes@.take(stage_nodes.len() as int) =~= stage_nodes@);
        assert(stage.node_seq().len() >= 1);
        let stage_outs = stage.output_tensor_ids();
        let mut live: Vec<(TensorId, i64)> = Vec::new();
        for q in 0..stage_outs.len()
            invariant
                local_fits(sg, dev),
                g == sg.graph(),
                *graph == g,
                stage_outs@ == stage.output_seq(),
                forall|k: int| 0 <= k < stage_outs.len() ==> (#[trigger] stage_outs@[k]).0 < g.num_tensors(),
                forall|c: int| 0 <= c < live.len() ==> (#[trigger] live@[c]).1 >= 0 && live@[c].0 .0 < g.num_tensors(),
                subgraph_outputs@ == sg.output_seq(),
                live@ == live_of(g, sg.output_seq(), stage_outs@.take(q as int)),
        {
            let t = stage_outs[q];
            proof {
                let t1 = stage_outs@.take(q + 1);
                assert(t1.drop_last() =~= stage_outs@.take(q as int));
                assert(t1.last() == t);
            }
            if !crate::subgraph::contains_tensor(subgraph_outputs, t) {
                let tensor = graph.tensors()[t.0];
                assert(tensor == g.tensor_seq()[t.0 as int]);
                assert(0 <= tensor.width * tensor.height <= MAX_DIM * MAX_DIM) by (nonlinear_arith)
                    requires
                        0 <= tensor.width <= MAX_DIM,
                        0 <= tensor.height <= MAX_DIM,
                ;
                live.push((t, tensor.size()));
            }
        }
        proof {
            assert(stage_outs@.take(stage_outs.len() as int) =~= stage_outs@);
        }
        let ghost live_s = live@;
        let cap = device_params.fast_memory_capacity;
        match tensors_size(graph, &retained_prev) {
            Some(reserved) => {
                if cap >= i64::MIN + reserved {
                    let mut rc = RetentionCandidates::new(live, cap, reserved);
                    let ghost f_init = rc.frames();
                    let ghost mut yielded: Seq<Seq<TensorId>> = Seq::empty();
                    let mut more = true;
                    proof {
                        assert(yielded + enumeration(rc.candidates@, rc.frames()) =~= enumeration(live_s, f_init));
                    }
                    while more
                        invariant
                            local_fits(sg, dev),
                            dev == *device_params,
                            subgraph.wf(),
                            sg == *subgraph,
                            g == sg.graph(),
                            *graph == g,
                            states_ok(sg, dev, states@, costs@, parents@, stage_of@),
                            parents_upto(states@, parents@, m),
                            m == s0[idx as int].subgraph.node_seq().len(),
                            costs@[idx as int] == latency,
                            states.len() >= n0,
                            idx < n0,
                            n0 == s0.len(),
                            forall|j: int| 0 <= j < n0 ==> states@[j] == s0[j],
                            retained_prev@ == s0[idx as int].retained_outputs@,
                            forall|k: int| 0 <= k < retained_prev.len() ==> (#[trigger] retained_prev@[k]).0
                                < g.num_tensors(),
                            latency.denom > 0,
                            stage.wf(),
                            stage.graph() == g,
                            stage_outs@ == stage.output_seq(),
                            new_executed.wf(),
                            new_executed.graph() == g,
                            new_executed.node_seq().len() > s0[idx as int].subgraph.node_seq().len(),
                            executed.node_seq() == s0[idx as int].subgraph.node_seq(),
                            is_next_stage(sg, executed, *stage),
                            forall|x: OperationId| new_executed.has(x) <==> executed.has(x) || stage.has(x),
                            rc.wf(),
                            forall|c: int| 0 <= c < rc.candidates.len() ==> (#[trigger] rc.candidates@[c]).0 .0
                                < g.num_tensors(),
                            frames_within(rc.frames(), g.num_tensors()),
                            before == s0[idx as int],
                            lat0 == latency.pair(),
                            rc.candidates@ == live_s,
                            live_s == live_of(g, sg.output_seq(), stage.output_seq()),
                            reserved == ids_size(g, before.retained_outputs@),
                            reserved >= 0,
                            cap == dev.fast_memory_capacity,
                            f_init == (if cap - reserved >= 0 {
                                seq![(Seq::<TensorId>::empty(), 0usize, (cap - reserved) as i64)]
                            } else {
                                Seq::empty()
                            }),
                            enumeration(live_s, f_init) == yielded + enumeration(rc.candidates@, rc.frames()),
                            !more ==> rc.frames().len() == 0,
                            *stage == stages@[si as int],
                            stages_done(sg, dev, states@, costs@, before, lat0, stages@, si as int),
                            selections_done(sg, dev, states@, costs@, before, lat0, *stage, yielded),
                            frame_ok(s0, k0, states@, costs@, m),
                            k0.len() == n0,
                            s0 == old(states)@,
                            k0 == old(costs)@,
                        decreases (if more {
                            stack_weight(rc.candidates.len() as nat, rc.frames()) + 1
                        } else {
                            0
                        }),
                    {
                        let ghost f0 = rc.frames();
                        let ghost c0 = rc.candidates@;
                        proof {
                            assert forall|k: int| 0 <= k < f0.len() implies (#[trigger] f0[k]).1 <= c0.len() by {
                                assert(f0[k] == frame_view(rc.stack@[k]));
                            }
                            assert(frames_bounded(c0, f0));
                        }
                        let next = rc.next();
                        proof {
                            if f0.len() > 0 {
                                lemma_expand_within(c0, f0.last(), c0.len() as int, g.num_tensors());
                                assert forall|k: int, m: int|
                                    0 <= k < rc.frames().len() && 0 <= m < rc.frames()[k].0.len() implies (
                                    #[trigger] rc.frames()[k].0[m]).0 < g.num_tensors() by {
                                    let e = expand_frame(c0, f0.last(), c0.len() as int);
                                    if k < f0.len() - 1 {
                                        assert(rc.frames()[k] == f0[k]);
                                    } else {
                                        assert(rc.frames()[k] == e[k - (f0.len() - 1)]);
                                    }
                                }
                            }
                        }
                        match next {
                            None => {
                                more = false;
                            },
                            Some(retention) => {
                                let ghost sel = retention@;
                                let ghost st_a = states@;
                                let ghost co_a = costs@;
                                let ghost retained_g = before.retained_outputs@ + sel;
                                proof {
                                    lemma_enumeration_unfold(c0, f0);
                                    assert(sel == f0.last().0);
                                }
                                proof {
                                    assert forall|m: int| 0 <= m < retention.len() implies (
                                    #[trigger] retention@[m]).0 < g.num_tensors() by {
                                        assert(f0[f0.len() - 1].0[m] == retention@[m]);
                                    }
                                }
                                let retained_ids = crate::partition::concat_ids(&retained_prev, &retention);
                                proof {
                                    assert forall|k: int| 0 <= k < retained_ids.len() implies (
                                    #[trigger] retained_ids@[k]).0 < g.num_tensors() by {
                                        if k < retained_prev.len() {
                                            assert(retained_ids@[k] == retained_prev@[k]);
                                        } else {
                                            assert(retained_ids@[k] == retention@[k - retained_prev.len()]);
                                        }
                                    }
                                    lemma_model_subgraph(sg, dev);
                                    assert(stage_fits(sg, dev, retained_ids@));
                                }
                                proof {
                                    assert(retained_ids@ == retained_g);
                                    assert forall|j: int| 0 <= j < st_a.len() implies #[trigger] co_a[j].denom > 0 by {
                                        assert(st_a[j] == states@[j]);
                                        assert(states@[j].subgraph.wf());
                                    }
                                }
                                let searched = search_tile_values(subgraph, device_params, retained_ids.as_slice());
                                match searched {
                                    Ok(tile) => {
                                        if stage_outs.len() > 0 {
                                            let stage_copy = stage.clone();
                                            proof {
                                                stage_copy.lemma_same_nodes_same_tensors(stage);
                                                assert(crate::tiling::is_candidate(sg, dev, tile));
                                                assert(latency_pre(sg, dev, tile));
                                                lemma_model_subgraph(stage_copy, dev);
                                                assert(forall|x: OperationId| stage_copy.has(x) ==> sg.has(x)) by {
                                                    assert(forall|x: OperationId| stage_copy.has(x) == stage.has(x));
                                                }
                                                assert(latency_pre(stage_copy, dev, tile));
                                            }
                                            let metrics = subgraph_latency(
                                                device_params,
                                                &stage_copy,
                                                tile,
                                                retained_ids.as_slice(),
                                            );
                                            proof {
                                                crate::performance_model::lemma_latency_sum_is_stage_cost(
                                                    metrics@,
                                                    stage_copy,
                                                    dev,
                                                    tile,
                                                    retained_ids@,
                                                );
                                            }
                                            match latency_total_checked(&metrics) {
                                                Some(stage_lat) => {
                                                    match rational_add_checked(latency, stage_lat) {
                                                        Some(new_latency) => {
                                                            let part = Partition {
                                                                subgraph: new_executed.clone(),
                                                                retained_outputs: retention,
                                                                tile_size: tile,
                                                            };
                                                            proof {
                                                                new_executed.lemma_same_set_same_seq(&new_executed);
                                                                assert(states@[idx as int] == s0[idx as int]);
                                                                assert(part.retained_outputs@ == retention@);
                                                                assert(retained_ids@ == states@[idx as int].retained_outputs@
                                                                    + part.retained_outputs@);
                                                                let before = states@[idx as int];
                                                                assert(forall|x: OperationId| stage_copy.has(x) == stage.has(x));
                                                                assert(forall|x: OperationId| part.subgraph.has(x) == new_executed.has(x));
                                                                assert(forall|x: OperationId| executed.has(x) == before.subgraph.has(x));
                                                                assert(before.subgraph.node_seq().len() < part.subgraph.node_seq().len());
                                                                assert(is_best(sg, dev, before.retained_outputs@ + part.retained_outputs@, part.tile_size));
                                                                assert(stage_copy.wf() && stage_copy.graph() == g);
                                                                assert forall|x: OperationId| before.subgraph.has(x) implies part.subgraph.has(x) by {
                                                                    assert(executed.has(x));
                                                                    assert(new_executed.has(x));
                                                                }
                                                                assert forall|x: OperationId| stage_copy.has(x) <==> part.subgraph.has(x) && !before.subgraph.has(x) by {
                                                                    if stage.has(x) {
                                                                        assert(!executed.has(x));
                                                                    }
                                                                }
                                                                assert(new_latency.pair() == frac_add(costs@[idx as int].pair(), stage_cost(stage_copy, dev, part.tile_size, before.retained_outputs@ + part.retained_outputs@)));
                                                                assert(stage_cost(stage_copy, dev, part.tile_size, before.retained_outputs@ + part.retained_outputs@).1 > 0);
                                                                assert(is_next_stage(sg, before.subgraph, stage_copy)) by {
                                                                    assert(executed_by(executed) =~= executed_by(before.subgraph));
                                                                    assert forall|op: OperationId| #[trigger] stage_copy.has(op) implies sg.has(op)
                                                                        && !before.subgraph.has(op) && forall|p: OperationId|
                                                                        in_sub_pred(sg, p, op) ==> before.subgraph.has(p) || stage_copy.has(p) by {
                                                                        assert(stage.has(op));
                                                                        assert forall|p: OperationId| in_sub_pred(sg, p, op) implies before.subgraph.has(p)
                                                                            || stage_copy.has(p) by {
                                                                            assert(executed.has(p) || stage.has(p));
                                                                        }
                                                                    }
                                                                }
                                                                assert(step_ok(sg, dev, before, part, costs@[idx as int], new_latency, stage_copy));
                                                                assert(states@[idx as int].subgraph.wf());
                                                                assert forall|x: OperationId| part.subgraph.has(x) implies sg.has(x) by {
                                                                    if before.subgraph.has(x) {
                                                                    } else {
                                                                        assert(stage.has(x));
                                                                    }
                                                                }
                                                            }
                                                            let ghost sc = stage_copy;
                                                            let ghost pg = part;
                                                            record_state(
                                                                subgraph,
                                                                device_params,
                                                                states,
                                                                costs,
                                                                parents,
                                                                stage_of,
                                                                part,
                                                                stage_copy,
                                                                new_latency,
                                                                idx,
                                                            );
                                                            proof {
                                                                assert forall|j: int| 0 <= j < states.len() implies #[trigger] costs@[j].denom > 0 by {
                                                                    assert(states@[j].subgraph.wf());
                                                                }
                                                                assert(pg.subgraph.node_seq().len() > m);
                                                                lemma_frame_step(s0, k0, st_a, co_a, states@, costs@, m);
                                                                assert(co_a.len() == st_a.len());
                                                                assert(grew_from(st_a, co_a, states@, costs@));
                                                                assert forall|o: Seq<OperationId>, t: (i64, i64, i64)|
                                                                    #[trigger] step_allowed(sg, dev, before, lat0, o, sel, t)
                                                                        && same_ops_as(stage.node_seq(), o) implies step_recorded(
                                                                    sg,
                                                                    dev,
                                                                    states@,
                                                                    costs@,
                                                                    before,
                                                                    lat0,
                                                                    o,
                                                                    sel,
                                                                    t,
                                                                ) by {
                                                                    crate::tiling::lemma_best_unique(sg, dev, retained_g, tile, t);
                                                                    assert(same_ops_as(sc.node_seq(), o));
                                                                    assert(!frac_le((i64::MAX as nat, 1nat), new_latency.pair()));
                                                                    let j = choose|j: int|
                                                                        0 <= j < states.len() && same_state(#[trigger] states@[j], pg) && frac_le(
                                                                            costs@[j].pair(),
                                                                            new_latency.pair(),
                                                                        );
                                                                    assert forall|x: OperationId| #[trigger] states@[j].subgraph.has(x) <==> before.subgraph.has(x)
                                                                        || o.contains(x) by {
                                                                        assert(states@[j].subgraph.has(x) == pg.subgraph.has(x));
                                                                        assert(stage.has(x) <==> o.contains(x));
                                                                    }
                                                                    assert(frac_le(
                                                                        costs@[j].pair(),
                                                                        frac_add(lat0, stage_cost(sc, dev, t, before.retained_outputs@ + sel)),
                                                                    ));
                                                                }
                                                                assert(sel_done(sg, dev, st_a, co_a, states@, costs@, before, lat0, *stage, sel));
                                                            }
                                                        },
                                                        None => {
                                                            proof {
                                                                assert(states@[idx as int] == s0[idx as int]);
                                                                assert(retained_ids@ == before.retained_outputs@ + sel);
                                                                assert(is_next_stage(sg, before.subgraph, stage_copy)) by {
                                                                    assert(forall|x: OperationId| stage_copy.has(x) == stage.has(x));
                                                                    assert(forall|x: OperationId| executed.has(x) == before.subgraph.has(x));
                                                                    assert(executed_by(executed) =~= executed_by(before.subgraph));
                                                                    assert(stage_copy.node_seq() == stage.node_seq());
                                                                    assert forall|op: OperationId| #[trigger] stage_copy.has(op) implies sg.has(op)
                                                                        && !before.subgraph.has(op) && forall|p: OperationId|
                                                                        in_sub_pred(sg, p, op) ==> before.subgraph.has(p) || stage_copy.has(p) by {
                                                                        assert(stage.has(op));
                                                                        assert forall|p: OperationId| in_sub_pred(sg, p, op) implies before.subgraph.has(p)
                                                                            || stage_copy.has(p) by {
                                                                            assert(executed.has(p) || stage.has(p));
                                                                        }
                                                                    }
                                                                }
                                                                assert(overflow_at(sg, dev, s0[idx as int], lat0, stage_copy, tile, sel));
                                                            }
                                                            return false;
                                                        },
                                                    }
                                                },
                                                None => {
                                                    proof {
                                                        assert forall|o: Seq<OperationId>, t: (i64, i64, i64)|
                                                            #[trigger] step_allowed(sg, dev, before, lat0, o, sel, t)
                                                                && same_ops_as(stage.node_seq(), o) implies false by {
                                                            crate::tiling::lemma_best_unique(sg, dev, retained_g, tile, t);
                                                            assert(same_ops_as(stage_copy.node_seq(), o));
                                                            assert(latency_result(metrics@, stage_copy, dev, t, retained_g));
                                                        }
                                                        assert(sel_done(sg, dev, st_a, co_a, states@, costs@, before, lat0, *stage, sel));
                                                    }
                                                },
                                            }
                                        } else {
                                            proof {
                                                assert forall|o: Seq<OperationId>, t: (i64, i64, i64)|
                                                    #[trigger] step_allowed(sg, dev, before, lat0, o, sel, t)
                                                        && same_ops_as(stage.node_seq(), o) implies false by {
                                                    assert(same_ops_as(stage.node_seq(), o));
                                                }
                                                assert(sel_done(sg, dev, st_a, co_a, states@, costs@, before, lat0, *stage, sel));
                                            }
                                        }
                                    },
                                    Err(e) => {
                                        proof {
                                            assert forall|o: Seq<OperationId>, t: (i64, i64, i64)|
                                                #[trigger] step_allowed(sg, dev, before, lat0, o, sel, t)
                                                    && same_ops_as(stage.node_seq(), o) implies false by {
                                                assert(is_best(sg, dev, retained_g, t));
                                                match e {
                                                    SearchError::Inconsistent => {},
                                                    SearchError::NotFound => {
                                                        assert(!crate::tiling::is_feasible(sg, dev, retained_g, t));
                                                    },
                                                }
                                            }
                                            assert(sel_done(sg, dev, st_a, co_a, states@, costs@, before, lat0, *stage, sel));
                                        }
                                    },
                                }
                                proof {
                                    lemma_done_kept(sg, dev, st_a, co_a, states@, costs@, before, lat0, stages@, si as int, *stage, yielded);
                                    let y1 = yielded.push(sel);
                                    assert forall|o: Seq<OperationId>, rho: Seq<TensorId>, t: (i64, i64, i64)|
                                        #[trigger] step_allowed(sg, dev, before, lat0, o, rho, t) && same_ops_as(stage.node_seq(), o)
                                            && y1.contains(rho) implies step_recorded(sg, dev, states@, costs@, before, lat0, o, rho, t) by {
                                        if rho != sel {
                                            let q = choose|q: int| 0 <= q < y1.len() && y1[q] == rho;
                                            assert(yielded[q] == rho);
                                        }
                                    }
                                    assert(y1 + enumeration(rc.candidates@, rc.frames()) =~= yielded + (seq![sel]
                                        + enumeration(rc.candidates@, rc.frames())));
                                    yielded = y1;
                                }
                            },
                        }
                    }
                    proof {
                        lemma_enumeration_empty(rc.candidates@, rc.frames());
                        assert(yielded =~= enumeration(live_s, f_init));
                        assert forall|o: Seq<OperationId>, rho: Seq<TensorId>, t: (i64, i64, i64)|
                            #[trigger] step_allowed(sg, dev, before, lat0, o, rho, t) && same_ops_as(stage.node_seq(), o)
                                implies step_recorded(sg, dev, states@, costs@, before, lat0, o, rho, t) by {
                            assert(same_ops_as(stage.node_seq(), o));
                        }
                    }
                } else {
                    proof {
                        assert forall|o: Seq<OperationId>, rho: Seq<TensorId>, t: (i64, i64, i64)|
                            #[trigger] step_allowed(sg, dev, before, lat0, o, rho, t) && same_ops_as(stage.node_seq(), o)
                                implies step_recorded(sg, dev, states@, costs@, before, lat0, o, rho, t) by {
                        }
                    }
                }
            },
            None => {
                proof {
                    assert forall|o: Seq<OperationId>, rho: Seq<TensorId>, t: (i64, i64, i64)|
                        #[trigger] step_allowed(sg, dev, before, lat0, o, rho, t) && same_ops_as(stage.node_seq(), o)
                            implies step_recorded(sg, dev, states@, costs@, before, lat0, o, rho, t) by {
                    }
                }
            },
        }
        proof {
            assert forall|o: Seq<OperationId>, rho: Seq<TensorId>, t: (i64, i64, i64), k: int|
                #![trigger step_allowed(sg, dev, before, lat0, o, rho, t), stages@[k]]
                step_allowed(sg, dev, before, lat0, o, rho, t) && 0 <= k < si + 1 && same_ops_as(stages@[k].node_seq(), o)
                    implies step_recorded(sg, dev, states@, costs@, before, lat0, o, rho, t) by {
                if k == si {
                    assert(stages@[k] == *stage);
                }
            }
        }
    }
    proof {
        assert forall|o: Seq<OperationId>, rho: Seq<TensorId>, t: (i64, i64, i64)|
            #[trigger] step_allowed(sg, dev, before, lat0, o, rho, t) implies step_recorded(
            sg,
            dev,
            states@,
            costs@,
            before,
            lat0,
            o,
            rho,
            t,
        ) by {
            assert(grows(sg, executed_by(before.subgraph), o));
            let k = choose|k: int| 0 <= k < stages.len() && same_ops_as(stages@[k].node_seq(), o);
        }
    }
    true
}

/// Tensors kept in fast memory while stage `p` of a plan runs: those the
/// previous stage kept for it and those it keeps for later stages.
pub open spec fn chain_retained<'a>(chain: Seq<(Partition<'a>, Rational)>, p: int) -> Seq<TensorId> {
    (if p > 0 {
        chain[p - 1].0.retained_outputs@
    } else {
        Seq::empty()
    }) + chain[p].0.retained_outputs@
}

/// `a` and `b` run the same operations and keep the same tensors.
pub open spec fn same_run<'a>(a: Partition<'a>, b: Partition<'a>) -> bool {
    &&& forall|x: OperationId| #[trigger] a.subgraph.has(x) <==> b.subgraph.has(x)
    &&& a.retained_outputs@ == b.retained_outputs@
}

/// Some state of `states` runs what `p` runs and keeps what it keeps, at a
/// latency of at most `c`.
pub open spec fn reached<'a>(states: Seq<Partition<'a>>, costs: Seq<Rational>, p: Partition<'a>, c: (nat, nat)) -> bool {
    exists|j: int| 0 <= j < states.len() && #[trigger] same_run(states[j], p) && frac_le(costs[j].pair(), c)
}

/// Every step the search takes from a state of fewer than `k` operations,
/// or of `k` operations below index `idx`, is recorded.
spec fn relaxed_upto<'a>(
    sg: Subgraph,
    dev: DeviceParameters,
    states: Seq<Partition<'a>>,
    costs: Seq<Rational>,
    k: int,
    idx: int,
) -> bool {
    forall|j: int, o: Seq<OperationId>, rho: Seq<TensorId>, t: (i64, i64, i64)|
        #![trigger step_allowed(sg, dev, states[j], costs[j].pair(), o, rho, t)]
        0 <= j < states.len() && (states[j].subgraph.node_seq().len() < k || (states[j].subgraph.node_seq().len() == k
            && j < idx)) && step_allowed(sg, dev, states[j], costs[j].pair(), o, rho, t) ==> step_recorded(
            sg,
            dev,
            states,
            costs,
            states[j],
            costs[j].pair(),
            o,
            rho,
            t,
        )
}

/// One step of a plan: from `before`, at latency `c0`, run a stage of the
/// operations `o` (listed by the subgraph `s`) as `step_allowed` says, reaching
/// `after`, which runs those too, keeps its selection of the stage's outputs
/// and runs at its tile, at latency `c1`: `c0` plus the stage's latency.
pub open spec fn plan_step<'a>(
    sg: Subgraph,
    dev: DeviceParameters,
    before: Partition<'a>,
    c0: (nat, nat),
    o: Seq<OperationId>,
    s: Subgraph<'a>,
    after: Partition<'a>,
    c1: (nat, nat),
) -> bool {
    let t = after.tile_size;
    let rho = after.retained_outputs@;
    let sc = stage_cost(s, dev, t, before.retained_outputs@ + rho);
    &&& step_allowed(sg, dev, before, c0, o, rho, t)
    &&& s.wf()
    &&& s.graph() == sg.graph()
    &&& same_ops_as(s.node_seq(), o)
    &&& forall|x: OperationId| #[trigger] after.subgraph.has(x) <==> before.subgraph.has(x) || o.contains(x)
    &&& c0.1 > 0
    &&& sc.1 > 0
    &&& c1 == frac_add(c0, sc)
}

/// A plan of steps as `plan_step` says, from the state that runs and keeps
/// nothing at latency zero: step `i` goes from `parts[i]` at `cs[i]` to
/// `parts[i + 1]` at `cs[i + 1]`, running a stage of the operations `ops[i]`.
pub open spec fn plan_path<'a>(
    sg: Subgraph,
    dev: DeviceParameters,
    parts: Seq<Partition<'a>>,
    cs: Seq<(nat, nat)>,
    ops: Seq<Seq<OperationId>>,
    stages: Seq<Subgraph<'a>>,
) -> bool {
    &&& parts.len() == ops.len() + 1
    &&& cs.len() == parts.len()
    &&& stages.len() == ops.len()
    &&& parts[0].subgraph.node_seq().len() == 0
    &&& parts[0].retained_outputs@.len() == 0
    &&& cs[0] == zero_pair()
    &&& forall|i: int| 0 <= i < ops.len() ==> #[trigger] plan_step_at(sg, dev, parts, cs, ops, stages, i)
}

/// Step `i` of the plan is as `plan_step` says.
pub open spec fn plan_step_at<'a>(
    sg: Subgraph,
    dev: DeviceParameters,
    parts: Seq<Partition<'a>>,
    cs: Seq<(nat, nat)>,
    ops: Seq<Seq<OperationId>>,
    stages: Seq<Subgraph<'a>>,
    i: int,
) -> bool {
    plan_step(sg, dev, parts[i], cs[i], ops[i], stages[i], parts[i + 1], cs[i + 1])
}

/// The plan's last state runs every operation of `sg`.
pub open spec fn plan_done<'a>(sg: Subgraph, parts: Seq<Partition<'a>>) -> bool {
    forall|x: OperationId| sg.has(x) <==> parts.last().subgraph.has(x)
}

/// Running the plan `chain`, which leaves the state `before`, and then the
/// stage `s` at tile `t` keeping `rho` needs a fraction sum that does not
/// fit (see `overflow_at`).
pub open spec fn chain_overflows<'a>(
    sg: Subgraph,
    dev: DeviceParameters,
    chain: Seq<(Partition<'a>, Rational)>,
    before: Partition<'a>,
    s: Subgraph,
    t: (i64, i64, i64),
    rho: Seq<TensorId>,
) -> bool {
    &&& chain_ok(sg, dev, chain)
    &&& chain_disjoint(chain)
    &&& forall|x: OperationId| before.subgraph.has(x) <==> chain_runs(chain, x)
    &&& before.retained_outputs@ == chain_kept(chain)
    &&& overflow_at(sg, dev, before, chain_before(chain, chain.len() as int), s, t, rho)
}

/// Operations of a subgraph inside another are no more than the other's.
proof fn lemma_subset_len(a: Subgraph, b: Subgraph)
    requires
        a.wf(),
        b.wf(),
        a.graph() == b.graph(),
        forall|x: OperationId| a.has(x) ==> b.has(x),
    ensures
        a.node_seq().len() <= b.node_seq().len(),
{
    let sa = a.node_seq();
    let sb = b.node_seq();
    assert(sa.no_duplicates()) by {
        assert forall|i: int, j: int| 0 <= i < sa.len() && 0 <= j < sa.len() && i != j implies sa[i] != sa[j] by {
            if i < j {
                assert(a.graph().pos(sa[i]) < a.graph().pos(sa[j]));
            } else {
                assert(a.graph().pos(sa[j]) < a.graph().pos(sa[i]));
            }
        }
    }
    assert(sb.no_duplicates()) by {
        assert forall|i: int, j: int| 0 <= i < sb.len() && 0 <= j < sb.len() && i != j implies sb[i] != sb[j] by {
            if i < j {
                assert(b.graph().pos(sb[i]) < b.graph().pos(sb[j]));
            } else {
                assert(b.graph().pos(sb[j]) < b.graph().pos(sb[i]));
            }
        }
    }
    sa.unique_seq_to_set();
    sb.unique_seq_to_set();
    assert(sa.to_set().subset_of(sb.to_set())) by {
        assert forall|x: OperationId| sa.to_set().contains(x) implies sb.to_set().contains(x) by {
            assert(a.has(x));
        }
    }
    vstd::set_lib::lemma_len_subset(sa.to_set(), sb.to_set());
}

/// No step may run from a state that runs every operation of `sg`.
proof fn lemma_full_no_step<'a>(
    sg: Subgraph,
    dev: DeviceParameters,
    before: Partition<'a>,
    c: (nat, nat),
    o: Seq<OperationId>,
    rho: Seq<TensorId>,
    t: (i64, i64, i64),
)
    requires
        forall|x: OperationId| sg.has(x) ==> before.subgraph.has(x),
    ensures
        !step_allowed(sg, dev, before, c, o, rho, t),
{
    if step_allowed(sg, dev, before, c, o, rho, t) {
        assert(sg.has(o[0]) && !executed_by(before.subgraph)(o[0]));
    }
}

/// A step allowed from a state at latency `c` is allowed from any state that
/// runs and keeps the same, at a latency `c2` no greater.
proof fn lemma_allowed_mono<'a>(
    sg: Subgraph,
    dev: DeviceParameters,
    b: Partition<'a>,
    c: (nat, nat),
    b2: Partition<'a>,
    c2: (nat, nat),
    o: Seq<OperationId>,
    rho: Seq<TensorId>,
    t: (i64, i64, i64),
    s0: Subgraph,
)
    requires
        step_allowed(sg, dev, b, c, o, rho, t),
        same_run(b2, b),
        frac_le(c2, c),
        c.1 > 0,
        c2.1 > 0,
        s0.wf(),
        s0.graph() == sg.graph(),
        same_ops_as(s0.node_seq(), o),
        stage_cost(s0, dev, t, b.retained_outputs@ + rho).1 > 0,
    ensures
        step_allowed(sg, dev, b2, c2, o, rho, t),
{
    let g = sg.graph();
    let retained = b.retained_outputs@ + rho;
    let mx = (i64::MAX as nat, 1nat);
    assert(executed_by(b2.subgraph) =~= executed_by(b.subgraph));
    assert forall|s: Subgraph|
        s.wf() && s.graph() == g && #[trigger] same_ops_as(s.node_seq(), o) implies !frac_le(
        mx,
        frac_add(c2, stage_cost(s, dev, t, retained)),
    ) by {
        s.lemma_same_set_same_seq(&s0);
        crate::performance_model::lemma_stage_cost_rep(s, s0, dev, t, retained);
        let sc = stage_cost(s, dev, t, retained);
        crate::rational::lemma_frac_le_refl(sc);
        crate::rational::lemma_add_mono(c2, sc, c, sc);
        crate::rational::lemma_add_grows(c2, sc);
        crate::rational::lemma_add_grows(c, sc);
        if frac_le(mx, frac_add(c2, sc)) {
            crate::rational::lemma_frac_le_trans(mx, frac_add(c2, sc), frac_add(c, sc));
        }
    }
}

/// Tensors the last stage of `chain` keeps; none for no stages.
pub open spec fn chain_kept<'a>(chain: Seq<(Partition<'a>, Rational)>) -> Seq<TensorId> {
    if chain.len() > 0 {
        chain.last().0.retained_outputs@
    } else {
        Seq::empty()
    }
}

/// The stages that reached state `last`, following the states each was
/// reached from back to the start state, with their latencies.
#[verifier::spinoff_prover]
#[verifier::rlimit(40)]
fn chain_to<'a>(
    subgraph: &Subgraph<'a>,
    device_params: &DeviceParameters,
    states: &Vec<Partition<'a>>,
    costs: &Vec<Rational>,
    parents: &Vec<Option<usize>>,
    stage_of: &mut Vec<Subgraph<'a>>,
    last: usize,
) -> (result: Vec<(Partition<'a>, Rational)>)
    requires
        subgraph.wf(),
        states_ok(*subgraph, *device_params, states@, costs@, parents@, old(stage_of)@),
        last < states.len(),
    ensures
        chain_ok(*subgraph, *device_params, result@),
        chain_disjoint(result@),
        forall|x: OperationId| states@[last as int].subgraph.has(x) <==> chain_runs(result@, x),
        chain_before(result@, result.len() as int) == costs@[last as int].pair(),
        chain_kept(result@) == states@[last as int].retained_outputs@,
{
    let ghost sg = *subgraph;
    let ghost g = sg.graph();
    let ghost dev = *device_params;
    let mut chain_idx: Vec<usize> = Vec::new();
    chain_idx.push(last);
    let mut cur = last;
    while parents[cur].is_some()
        invariant
            states_ok(sg, dev, states@, costs@, parents@, stage_of@),
            cur < states.len(),
            chain_idx.len() >= 1,
            chain_idx@[chain_idx.len() - 1] == cur,
            chain_idx@[0] == last,
            forall|i: int| 0 <= i < chain_idx.len() ==> (#[trigger] chain_idx@[i]) < states.len(),
            forall|i: int|
                0 <= i < chain_idx.len() - 1 ==> parents@[#[trigger] chain_idx@[i] as int] == Some(chain_idx@[i + 1]),
            forall|i: int, j: int|
                0 <= i < j < chain_idx.len() ==> states@[chain_idx@[j] as int].subgraph.node_seq().len()
                    < states@[chain_idx@[i] as int].subgraph.node_seq().len(),
        decreases states@[cur as int].subgraph.node_seq().len(),
    {
        assert(parents@[cur as int] is Some);
        let p = parents[cur].unwrap();
        let ghost c0 = chain_idx@;
        chain_idx.push(p);
        proof {
            assert forall|i: int| 0 <= i < chain_idx.len() - 1 implies parents@[#[trigger] chain_idx@[i] as int]
                == Some(chain_idx@[i + 1]) by {
                if i < c0.len() - 1 {
                    assert(chain_idx@[i] == c0[i] && chain_idx@[i + 1] == c0[i + 1]);
                } else {
                    assert(chain_idx@[i] == cur);
                }
            }
            assert forall|i: int, j: int| 0 <= i < j < chain_idx.len() implies states@[
                chain_idx@[j] as int
            ].subgraph.node_seq().len() < states@[chain_idx@[i] as int].subgraph.node_seq().len() by {
                if j < c0.len() {
                    assert(chain_idx@[i] == c0[i] && chain_idx@[j] == c0[j]);
                } else {
                    assert(chain_idx@[i] == c0[i]);
                    if i < c0.len() - 1 {
                        assert(states@[c0[c0.len() - 1] as int].subgraph.node_seq().len() < states@[
                            c0[i] as int
                        ].subgraph.node_seq().len());
                    }
                }
            }
        }
        cur = p;
    }
    let ghost ci = chain_idx@;
    let ghost so = stage_of@;
    let mut result: Vec<(Partition<'a>, Rational)> = Vec::new();
    let mut t = chain_idx.len() - 1;
    let mut slot = stage_of[0].clone();
    proof {
        assert(parents@[ci[t as int] as int] is None);
    }
    while t > 0
        invariant
            g == sg.graph(),
            states_ok(sg, dev, states@, costs@, parents@, so),
            ci == chain_idx@,
            ci[0] == last,
                        0 <= t < chain_idx.len(),
            stage_of.len() == so.len(),
            forall|i: int| 0 <= i < chain_idx.len() ==> (#[trigger] chain_idx@[i]) < states.len(),
            forall|i: int|
                0 <= i < chain_idx.len() - 1 ==> parents@[#[trigger] chain_idx@[i] as int] == Some(chain_idx@[i + 1]),
            forall|i: int, j: int|
                0 <= i < j < chain_idx.len() ==> states@[chain_idx@[j] as int].subgraph.node_seq().len()
                    < states@[chain_idx@[i] as int].subgraph.node_seq().len(),
            forall|i: int| 0 <= i < t ==> stage_of@[#[trigger] chain_idx@[i] as int] == so[chain_idx@[i] as int],
            (if result.len() > 0 {
                result@[result.len() - 1].0.retained_outputs@
            } else {
                Seq::<TensorId>::empty()
            }) == states@[chain_idx@[t as int] as int].retained_outputs@,
            chain_before(result@, result.len() as int) == costs@[chain_idx@[t as int] as int].pair(),
            forall|x: OperationId| states@[chain_idx@[t as int] as int].subgraph.has(x) <==> chain_runs(result@, x),
            chain_disjoint(result@),
            chain_ok(sg, dev, result@),
        decreases t,
    {
        let before = chain_idx[t];
        let after = chain_idx[t - 1];
        assert(parents@[after as int] == Some(before));
        assert(stage_of@[after as int] == so[after as int]);
        stage_of.set_and_swap(after, &mut slot);
        let stage = slot.clone();
        let kept = crate::partition::copy_ids(&states[after].retained_outputs);
        let ghost r0 = result@;
        let ghost st = so[after as int];
        assert(slot == st);
        proof {
            assert(step_ok(sg, dev, states@[before as int], states@[after as int], costs@[before as int], costs@[after as int], st));
        }
        result.push((Partition { subgraph: slot, retained_outputs: kept, tile_size: states[after].tile_size }, costs[after]));
        slot = stage;
        proof {
            assert(states@[after as int].subgraph.wf());
            lemma_chain_push(sg, dev, r0, result@.last(), states@[before as int], states@[after as int], costs@[before as int]);
            assert(result@ == r0.push(result@.last()));
            assert forall|i: int| 0 <= i < t - 1 implies stage_of@[#[trigger] chain_idx@[i] as int] == so[
                chain_idx@[i] as int
            ] by {
                assert(chain_idx@[i] != after);
            }
        }
        t = t - 1;
    }
    result
}

/// After relaxing state `idx` of `k` operations, every step from it is
/// recorded and every step recorded before stays recorded.
proof fn lemma_relaxed_after<'a>(
    sg: Subgraph,
    dev: DeviceParameters,
    s1: Seq<Partition<'a>>,
    k1: Seq<Rational>,
    s2: Seq<Partition<'a>>,
    k2: Seq<Rational>,
    parents: Seq<Option<usize>>,
    stage_of: Seq<Subgraph<'a>>,
    k: int,
    idx: int,
)
    requires
        relaxed_upto(sg, dev, s1, k1, k, idx),
        0 <= idx < s1.len(),
        s1[idx].subgraph.node_seq().len() == k,
        frame_ok(s1, k1, s2, k2, k),
        states_ok(sg, dev, s2, k2, parents, stage_of),
        forall|o: Seq<OperationId>, rho: Seq<TensorId>, t: (i64, i64, i64)|
            #[trigger] step_allowed(sg, dev, s1[idx], k1[idx].pair(), o, rho, t) ==> step_recorded(
                sg,
                dev,
                s2,
                k2,
                s1[idx],
                k1[idx].pair(),
                o,
                rho,
                t,
            ),
    ensures
        relaxed_upto(sg, dev, s2, k2, k, idx + 1),
{
    assert forall|j: int, o: Seq<OperationId>, rho: Seq<TensorId>, t: (i64, i64, i64)|
        #![trigger step_allowed(sg, dev, s2[j], k2[j].pair(), o, rho, t)]
        0 <= j < s2.len() && (s2[j].subgraph.node_seq().len() < k || (s2[j].subgraph.node_seq().len() == k && j < idx
            + 1)) && step_allowed(sg, dev, s2[j], k2[j].pair(), o, rho, t) implies step_recorded(
        sg,
        dev,
        s2,
        k2,
        s2[j],
        k2[j].pair(),
        o,
        rho,
        t,
    ) by {
        if j >= s1.len() {
            assert(s2[j].subgraph.node_seq().len() > k);
        } else {
            assert(s2[j] == s1[j]);
            assert(k2[j] == k1[j]);
            if j != idx {
                assert(step_allowed(sg, dev, s1[j], k1[j].pair(), o, rho, t));
                lemma_recorded_kept(sg, dev, s1, k1, s2, k2, s1[j], k1[j].pair(), o, rho, t);
            }
        }
    }
}

/// Every state of a plan is reached by the search at no greater latency.
#[verifier::spinoff_prover]
#[verifier::rlimit(60)]
proof fn lemma_plan_reached<'a>(
    sg: Subgraph,
    dev: DeviceParameters,
    states: Seq<Partition<'a>>,
    costs: Seq<Rational>,
    parents: Seq<Option<usize>>,
    stage_of: Seq<Subgraph<'a>>,
    parts: Seq<Partition<'a>>,
    cs: Seq<(nat, nat)>,
    ops: Seq<Seq<OperationId>>,
    stages: Seq<Subgraph<'a>>,
    i: int,
)
    requires
        sg.wf(),
        states_ok(sg, dev, states, costs, parents, stage_of),
        relaxed_upto(sg, dev, states, costs, (sg.node_seq().len() + 1) as int, 0),
        states.len() >= 1,
        states[0].subgraph.node_seq().len() == 0,
        states[0].retained_outputs@.len() == 0,
        costs[0].pair() == zero_pair(),
        plan_path(sg, dev, parts, cs, ops, stages),
        0 <= i <= ops.len(),
    ensures
        reached(states, costs, parts[i], cs[i]),
        cs[i].1 > 0,
    decreases i,
{
    if i == 0 {
        assert(states[0].retained_outputs@ =~= parts[0].retained_outputs@);
        assert(same_run(states[0], parts[0]));
        crate::rational::lemma_frac_le_refl(zero_pair());
    } else {
        let p = i - 1;
        lemma_plan_reached(sg, dev, states, costs, parents, stage_of, parts, cs, ops, stages, p);
        assert(plan_step_at(sg, dev, parts, cs, ops, stages, p));
        assert(p + 1 == i);
        assert(parts[p + 1] == parts[i] && cs[p + 1] == cs[i]);
        let j = choose|j: int| 0 <= j < states.len() && #[trigger] same_run(states[j], parts[p]) && frac_le(costs[j].pair(), cs[p]);
        assert(states[j].subgraph.wf());
        lemma_subset_len(states[j].subgraph, sg);
        let o = ops[p];
        let rho = parts[i].retained_outputs@;
        let t = parts[i].tile_size;
        let sc = stage_cost(stages[p], dev, t, parts[p].retained_outputs@ + rho);
        lemma_allowed_mono(sg, dev, parts[p], cs[p], states[j], costs[j].pair(), o, rho, t, stages[p]);
        assert(step_allowed(sg, dev, states[j], costs[j].pair(), o, rho, t));
        assert(step_recorded(sg, dev, states, costs, states[j], costs[j].pair(), o, rho, t));
        let (j2, s) = choose|j2: int, s: Subgraph|
            #![trigger states[j2], stage_cost(s, dev, t, states[j].retained_outputs@ + rho)]
            0 <= j2 < states.len() && s.wf() && s.graph() == sg.graph() && same_ops_as(s.node_seq(), o) && (forall|
                x: OperationId,
            | #[trigger] states[j2].subgraph.has(x) <==> states[j].subgraph.has(x) || o.contains(x))
                && states[j2].retained_outputs@ == rho && states[j2].tile_size == t && frac_le(
                costs[j2].pair(),
                frac_add(costs[j].pair(), stage_cost(s, dev, t, states[j].retained_outputs@ + rho)),
            );
        s.lemma_same_set_same_seq(&stages[p]);
        crate::performance_model::lemma_stage_cost_rep(s, stages[p], dev, t, parts[p].retained_outputs@ + rho);
        assert(states[j].subgraph.wf());
        crate::rational::lemma_frac_le_refl(sc);
        crate::rational::lemma_add_mono(costs[j].pair(), sc, cs[p], sc);
        crate::rational::lemma_add_grows(costs[j].pair(), sc);
        crate::rational::lemma_add_grows(cs[p], sc);
        assert(states[j2].subgraph.wf());
        crate::rational::lemma_frac_le_trans(costs[j2].pair(), frac_add(costs[j].pair(), sc), cs[i]);
        assert(plan_step(sg, dev, parts[p], cs[p], ops[p], stages[p], parts[p + 1], cs[p + 1]));
        assert(forall|x: OperationId| parts[p + 1].subgraph.has(x) <==> parts[p].subgraph.has(x) || o.contains(x));
        assert(forall|x: OperationId| parts[i].subgraph.has(x) <==> parts[p].subgraph.has(x) || o.contains(x));
        assert forall|x: OperationId| states[j2].subgraph.has(x) <==> parts[i].subgraph.has(x) by {
            assert(states[j].subgraph.has(x) <==> parts[p].subgraph.has(x));
            assert(parts[i].subgraph.has(x) <==> parts[p].subgraph.has(x) || o.contains(x));
        }
        assert(same_run(states[j2], parts[i]));
    }
}

/// A plan that runs every operation ends at a state the search reached with
/// every operation run, at no greater latency; the plan's latency is below
/// `i64::MAX`.
proof fn lemma_plan_full<'a>(
    sg: Subgraph,
    dev: DeviceParameters,
    states: Seq<Partition<'a>>,
    costs: Seq<Rational>,
    parents: Seq<Option<usize>>,
    stage_of: Seq<Subgraph<'a>>,
    parts: Seq<Partition<'a>>,
    cs: Seq<(nat, nat)>,
    ops: Seq<Seq<OperationId>>,
    stages: Seq<Subgraph<'a>>,
) -> (j: int)
    requires
        sg.wf(),
        states_ok(sg, dev, states, costs, parents, stage_of),
        relaxed_upto(sg, dev, states, costs, (sg.node_seq().len() + 1) as int, 0),
        states.len() >= 1,
        states[0].subgraph.node_seq().len() == 0,
        states[0].retained_outputs@.len() == 0,
        costs[0].pair() == zero_pair(),
        plan_path(sg, dev, parts, cs, ops, stages),
        plan_done(sg, parts),
    ensures
        0 <= j < states.len(),
        states[j].subgraph.node_seq() == sg.node_seq(),
        frac_le(costs[j].pair(), cs.last()),
        costs[j].denom > 0,
        cs.last().1 > 0,
        !frac_le((i64::MAX as nat, 1nat), cs.last()),
{
    let n = ops.len() as int;
    lemma_plan_reached(sg, dev, states, costs, parents, stage_of, parts, cs, ops, stages, n);
    let j = choose|j: int| 0 <= j < states.len() && #[trigger] same_run(states[j], parts[n]) && frac_le(costs[j].pair(), cs[n]);
    assert(states[j].subgraph.wf());
    assert(forall|x: OperationId| states[j].subgraph.has(x) <==> sg.has(x));
    states[j].subgraph.lemma_same_set_same_seq(&sg);
    if n > 0 {
        let p = n - 1;
        assert(plan_step_at(sg, dev, parts, cs, ops, stages, p));
        assert(p + 1 == n);
        assert(parts[p + 1] == parts[n] && cs[p + 1] == cs[n]);
        assert(same_ops_as(stages[p].node_seq(), ops[p]));
        assert(!frac_le(
            (i64::MAX as nat, 1nat),
            frac_add(cs[p], stage_cost(stages[p], dev, parts[n].tile_size, parts[p].retained_outputs@ + parts[n].retained_outputs@)),
        ));
    }
    assert(cs.last() == cs[n]);
    if n == 0 {
        assert(cs[0] == zero_pair());
        assert(!frac_le((i64::MAX as nat, 1nat), zero_pair()));
    }
    j
}

/// Splits the subgraph into a sequence of stages run one after the other,
/// choosing the stages, the stage outputs kept in fast memory for later
/// stages, and the tiles, to minimise the total latency: a shortest path over
/// execution states (the operations executed so far, with the outputs kept),
/// where a step runs a stage that may run next at the best tile for the whole
/// subgraph with the kept tensors, and costs the stage's latency. Gives each
/// stage with the latency of the path up to it. The plan returned costs no
/// more than any plan of steps the search may take (`plan_path`) that runs
/// every operation. `None` comes back only for a non-empty subgraph, when no
/// such plan exists or when a plan needed a sum of latencies that the `u64`
/// fractions cannot hold (`chain_overflows`); the search then stops.
#[verifier::spinoff_prover]
#[verifier::rlimit(40)]
pub fn partition_subgraph<'a>(subgraph: &Subgraph<'a>, device_params: &DeviceParameters) -> (r: Option<
    Vec<(Partition<'a>, Rational)>,
>)
    requires
        local_fits(*subgraph, *device_params),
        subgraph.wf(),
    ensures
        r matches Some(chain) ==> {
            &&& chain_ok(*subgraph, *device_params, chain@)
            &&& chain_disjoint(chain@)
            &&& forall|x: OperationId| subgraph.has(x) <==> chain_runs(chain@, x)
            &&& forall|parts: Seq<Partition<'a>>, cs: Seq<(nat, nat)>, ops: Seq<Seq<OperationId>>, stages: Seq<Subgraph<'a>>|
                #[trigger] plan_path(*subgraph, *device_params, parts, cs, ops, stages) && plan_done(*subgraph, parts)
                    ==> frac_le(chain_before(chain@, chain.len() as int), cs.last())
        },
        r is None ==> subgraph.node_seq().len() > 0 && ((forall|
            parts: Seq<Partition<'a>>,
            cs: Seq<(nat, nat)>,
            ops: Seq<Seq<OperationId>>,
            stages: Seq<Subgraph<'a>>,
        | #[trigger] plan_path(*subgraph, *device_params, parts, cs, ops, stages) ==> !plan_done(*subgraph, parts))
            || exists|
            c: Seq<(Partition<'a>, Rational)>,
            before: Partition<'a>,
            s: Subgraph,
            t: (i64, i64, i64),
            rho: Seq<TensorId>,
        | #[trigger] chain_overflows(*subgraph, *device_params, c, before, s, t, rho)),
        subgraph.node_seq().len() == 0 ==> r is Some,
{
    let graph = subgraph.parent();
    let ghost sg = *subgraph;
    let ghost g = sg.graph();
    let ghost dev = *device_params;
    let subgraph_outputs = subgraph.output_tensor_ids();
    let empty = Subgraph::from_nodes(graph, Vec::new());
    let mut stage_of: Vec<Subgraph<'a>> = Vec::new();
    stage_of.push(empty.clone());
    let mut states: Vec<Partition<'a>> = Vec::new();
    states.push(Partition { subgraph: empty, retained_outputs: Vec::new(), tile_size: (-1, -1, -1) });
    let mut costs: Vec<Rational> = Vec::new();
    costs.push(fraction_from_int(0));
    let mut parents: Vec<Option<usize>> = Vec::new();
    parents.push(None);
    proof {
        assert(states_ok(sg, dev, states@, costs@, parents@, stage_of@)) by {
            assert(states@[0].retained_outputs@ =~= Seq::<TensorId>::empty());
            assert(states@[0].subgraph.node_seq().len() == 0);
        }
    }
    let total_nodes = subgraph.nodes().len();
    proof {
        subgraph.lemma_len_bound();
    }
    for k in 0..total_nodes + 1
        invariant
            local_fits(sg, dev),
            dev == *device_params,
            subgraph.wf(),
            sg == *subgraph,
            g == sg.graph(),
            *graph == g,
            states_ok(sg, dev, states@, costs@, parents@, stage_of@),
            parents_upto(states@, parents@, k as int),
            subgraph_outputs@ == sg.output_seq(),
            states.len() >= 1,
            states@[0].subgraph.node_seq().len() == 0,
            states@[0].retained_outputs@.len() == 0,
            costs@[0].pair() == zero_pair(),
            total_nodes == sg.node_seq().len(),
            relaxed_upto(sg, dev, states@, costs@, k as int, 0),
    {
        let cnt = states.len();
        for idx in 0..cnt
            invariant
                local_fits(sg, dev),
                dev == *device_params,
                subgraph.wf(),
                sg == *subgraph,
                g == sg.graph(),
                *graph == g,
                states_ok(sg, dev, states@, costs@, parents@, stage_of@),
                parents_upto(states@, parents@, k as int),
                subgraph_outputs@ == sg.output_seq(),
                states.len() >= cnt,
                cnt >= 1,
                states@[0].subgraph.node_seq().len() == 0,
                states@[0].retained_outputs@.len() == 0,
                costs@[0].pair() == zero_pair(),
                total_nodes == sg.node_seq().len(),
                k <= total_nodes,
                relaxed_upto(sg, dev, states@, costs@, k as int, idx as int),
                forall|j: int| cnt <= j < states.len() ==> (#[trigger] states@[j]).subgraph.node_seq().len() > k,
        {
            assert(states@[idx as int].subgraph.wf());
            let ghost s1 = states@;
            let ghost k1 = costs@;
            if states[idx].subgraph.nodes().len() == k && !states[idx].subgraph.same_nodes(subgraph) {
                proof {
                    if sg.node_seq().len() == 0 {
                        assert(states@[idx as int].subgraph.node_seq() =~= sg.node_seq());
                    }
                }
                let ok = relax_from(
                    subgraph,
                    device_params,
                    &subgraph_outputs,
                    &mut states,
                    &mut costs,
                    &mut parents,
                    &mut stage_of,
                    idx,
                );
                if !ok {
                    let ghost st = states@;
                    let ghost co = costs@;
                    let witness = chain_to(subgraph, device_params, &states, &costs, &parents, &mut stage_of, idx);
                    proof {
                        assert(st[idx as int] == s1[idx as int]);
                        assert(co[idx as int] == k1[idx as int]);
                        let (s, t, rho) = choose|s: Subgraph, t: (i64, i64, i64), rho: Seq<TensorId>|
                            #[trigger] overflow_at(sg, dev, s1[idx as int], k1[idx as int].pair(), s, t, rho);
                        assert(chain_overflows(sg, dev, witness@, s1[idx as int], s, t, rho));
                    }
                    return None;
                }
                proof {
                    lemma_relaxed_after(sg, dev, s1, k1, states@, costs@, parents@, stage_of@, k as int, idx as int);
                    assert forall|j: int| cnt <= j < states.len() implies (#[trigger] states@[j]).subgraph.node_seq().len() > k by {
                        if j < s1.len() {
                            assert(states@[j] == s1[j]);
                        }
                    }
                    assert(states@[0] == s1[0]);
                    assert(costs@[0] == k1[0]);
                }
            } else {
                proof {
                    assert forall|j: int, o: Seq<OperationId>, rho: Seq<TensorId>, t: (i64, i64, i64)|
                        #![trigger step_allowed(sg, dev, states@[j], costs@[j].pair(), o, rho, t)]
                        0 <= j < states.len() && (states@[j].subgraph.node_seq().len() < k || (
                        states@[j].subgraph.node_seq().len() == k && j < idx + 1)) && step_allowed(
                            sg,
                            dev,
                            states@[j],
                            costs@[j].pair(),
                            o,
                            rho,
                            t,
                        ) implies step_recorded(sg, dev, states@, costs@, states@[j], costs@[j].pair(), o, rho, t) by {
                        if j == idx && states@[j].subgraph.node_seq().len() == k {
                            assert(states@[j].subgraph.node_seq() == sg.node_seq());
                            lemma_full_no_step(sg, dev, states@[j], costs@[j].pair(), o, rho, t);
                        }
                    }
                }
            }
        }
        proof {
            assert forall|j: int| 0 <= j < states.len() && (#[trigger] parents@[j]) is Some implies states@[
                parents@[j].unwrap() as int
            ].subgraph.node_seq().len() <= k + 1 by {}
            assert forall|j: int, o: Seq<OperationId>, rho: Seq<TensorId>, t: (i64, i64, i64)|
                #![trigger step_allowed(sg, dev, states@[j], costs@[j].pair(), o, rho, t)]
                0 <= j < states.len() && (states@[j].subgraph.node_seq().len() < k + 1 || (
                states@[j].subgraph.node_seq().len() == k + 1 && j < 0)) && step_allowed(
                    sg,
                    dev,
                    states@[j],
                    costs@[j].pair(),
                    o,
                    rho,
                    t,
                ) implies step_recorded(sg, dev, states@, costs@, states@[j], costs@[j].pair(), o, rho, t) by {
                if states@[j].subgraph.node_seq().len() == k {
                    assert(j < cnt);
                }
            }
        }
    }
    let limit = fraction_from_int(i64::MAX);
    let mut best: Option<usize> = None;
    for j in 0..states.len()
        invariant
            states_ok(sg, dev, states@, costs@, parents@, stage_of@),
            sg == *subgraph,
            limit.denom > 0,
            best matches Some(b) ==> b < j && b < states.len() && states@[b as int].subgraph.node_seq()
                == sg.node_seq(),
            states@[0].subgraph.node_seq().len() == 0,
            limit.pair() == (i64::MAX as nat, 1nat),
            sg.node_seq().len() == 0 && j > 0 ==> best is Some,
            costs@[0].pair() == zero_pair(),
            subgraph.wf(),
            g == sg.graph(),
            dev == *device_params,
            states.len() >= 1,
            states@[0].retained_outputs@.len() == 0,
            total_nodes == sg.node_seq().len(),
            relaxed_upto(sg, dev, states@, costs@, (total_nodes + 1) as int, 0),
            forall|jj: int|
                0 <= jj < j && (#[trigger] states@[jj]).subgraph.node_seq() == sg.node_seq() ==> (best matches Some(b)
                    && frac_le(costs@[b as int].pair(), costs@[jj].pair())) || frac_le(limit.pair(), costs@[jj].pair()),
    {
        proof {
            if j == 0 && sg.node_seq().len() == 0 {
                assert(states@[0].subgraph.node_seq() =~= sg.node_seq());
                assert(!frac_le(limit.pair(), costs@[0].pair()));
            }
        }
        if states[j].subgraph.same_nodes(subgraph) {
            let bound = match best {
                Some(b) => {
                    assert(states@[b as int].subgraph.wf());
                    costs[b]
                },
                None => limit,
            };
            assert(states@[j as int].subgraph.wf());
            let ghost best0 = best;
            if rational_lt(costs[j], bound) {
                best = Some(j);
                proof {
                    assert forall|jj: int|
                        0 <= jj < j + 1 && (#[trigger] states@[jj]).subgraph.node_seq() == sg.node_seq() implies (best matches Some(
                        b,
                    ) && frac_le(costs@[b as int].pair(), costs@[jj].pair())) || frac_le(limit.pair(), costs@[jj].pair()) by {
                        assert(states@[jj].subgraph.wf());
                        if jj == j {
                            crate::rational::lemma_frac_le_refl(costs@[j as int].pair());
                        } else if let Some(b) = best0 {
                            if frac_le(costs@[b as int].pair(), costs@[jj].pair()) {
                                assert(states@[b as int].subgraph.wf());
                                crate::rational::lemma_frac_le_trans(
                                    costs@[j as int].pair(),
                                    costs@[b as int].pair(),
                                    costs@[jj].pair(),
                                );
                            }
                        }
                    }
                }
            }
        }
    }
    let last = match best {
        Some(b) => b,
        None => {
            proof {
                assert forall|
                    parts: Seq<Partition<'a>>,
                    cs: Seq<(nat, nat)>,
                    ops: Seq<Seq<OperationId>>,
                    stages: Seq<Subgraph<'a>>,
                | #[trigger] plan_path(sg, dev, parts, cs, ops, stages) implies !plan_done(sg, parts) by {
                    if plan_done(sg, parts) {
                        let j = lemma_plan_full(sg, dev, states@, costs@, parents@, stage_of@, parts, cs, ops, stages);
                        assert(frac_le(limit.pair(), costs@[j].pair()));
                        crate::rational::lemma_frac_le_trans(limit.pair(), costs@[j].pair(), cs.last());
                    }
                }
            }
            return None;
        },
    };
    let ghost so = stage_of@;
    let result = chain_to(subgraph, device_params, &states, &costs, &parents, &mut stage_of, last);
    proof {
        assert forall|
            parts: Seq<Partition<'a>>,
            cs: Seq<(nat, nat)>,
            ops: Seq<Seq<OperationId>>,
            stages: Seq<Subgraph<'a>>,
        | #[trigger] plan_path(sg, dev, parts, cs, ops, stages) && plan_done(sg, parts) implies frac_le(
            chain_before(result@, result.len() as int),
            cs.last(),
        ) by {
            let j = lemma_plan_full(sg, dev, states@, costs@, parents@, so, parts, cs, ops, stages);
            assert(states@[last as int].subgraph.wf());
            if frac_le(limit.pair(), costs@[j].pair()) {
                crate::rational::lemma_frac_le_trans(limit.pair(), costs@[j].pair(), cs.last());
            } else {
                crate::rational::lemma_frac_le_trans(costs@[last as int].pair(), costs@[j].pair(), cs.last());
            }
        }
    }
    Some(result)
}

/// Stage `p` of `chain` is a subgraph of `sg`'s graph of at most
/// `MAX_STAGE_SIZE` operations whose producers within `sg` run in it or in an
/// earlier stage and that grow one at a time after the earlier stages (see
/// `grows`); it runs at the best tile for `sg` with the tensors kept around
/// it, and its latency adds the stage's cost to the latency before it.
pub open spec fn stage_ok<'a>(sg: Subgraph, dev: DeviceParameters, chain: Seq<(Partition<'a>, Rational)>, p: int) -> bool {
    let e = chain[p];
    &&& e.0.subgraph.wf()
    &&& e.0.subgraph.graph() == sg.graph()
    &&& e.1.denom > 0
    &&& is_best(sg, dev, chain_retained(chain, p), e.0.tile_size)
    &&& e.1.pair() == frac_add(chain_before(chain, p), stage_cost(e.0.subgraph, dev, e.0.tile_size, chain_retained(chain, p)))
    &&& stage_cost(e.0.subgraph, dev, e.0.tile_size, chain_retained(chain, p)).1 > 0
    &&& 1 <= e.0.subgraph.node_seq().len() <= MAX_STAGE_SIZE
    &&& forall|op: OperationId, q: OperationId|
        #[trigger] e.0.subgraph.has(op) && #[trigger] in_sub_pred(sg, q, op) ==> e.0.subgraph.has(q) || chain_runs(
            chain.take(p),
            q,
        )
    &&& grown(sg, runs_before(chain, p), e.0.subgraph.node_seq())
}

/// The operations run by the stages before stage `p`, as a predicate.
pub open spec fn runs_before<'a>(chain: Seq<(Partition<'a>, Rational)>, p: int) -> spec_fn(OperationId) -> bool {
    |x: OperationId| chain_runs(chain.take(p), x)
}

/// Every stage of `chain` is as `stage_ok` says.
pub open spec fn chain_ok<'a>(sg: Subgraph, dev: DeviceParameters, chain: Seq<(Partition<'a>, Rational)>) -> bool {
    forall|p: int| 0 <= p < chain.len() ==> #[trigger] stage_ok(sg, dev, chain, p)
}

/// No operation runs in two stages of `chain`.
pub open spec fn chain_disjoint<'a>(chain: Seq<(Partition<'a>, Rational)>) -> bool {
    forall|p: int, q: int, x: OperationId|
        0 <= p < q < chain.len() ==> !(#[trigger] chain[p].0.subgraph.has(x) && #[trigger] chain[q].0.subgraph.has(x))
}

/// `x` runs in some stage of `chain`.
pub open spec fn chain_runs<'a>(chain: Seq<(Partition<'a>, Rational)>, x: OperationId) -> bool {
    exists|p: int| 0 <= p < chain.len() && #[trigger] chain[p].0.subgraph.has(x)
}

/// Along a plan the latencies reached never decrease: the latency up to a
/// stage is at least the latency up to any stage before it.
pub proof fn lemma_chain_latency_grows<'a>(sg: Subgraph, dev: DeviceParameters, chain: Seq<(Partition<'a>, Rational)>)
    requires
        chain_ok(sg, dev, chain),
    ensures
        forall|p: int, q: int| 0 <= p <= q < chain.len() ==> frac_le(chain[p].1.pair(), chain[q].1.pair()),
{
    assert forall|p: int, q: int| 0 <= p <= q < chain.len() implies frac_le(chain[p].1.pair(), chain[q].1.pair()) by {
        lemma_chain_latency_steps(sg, dev, chain, p, q);
    }
}

/// The latency up to stage `q` is at least that up to stage `p <= q`.
proof fn lemma_chain_latency_steps<'a>(sg: Subgraph, dev: DeviceParameters, chain: Seq<(Partition<'a>, Rational)>, p: int, q: int)
    requires
        chain_ok(sg, dev, chain),
        0 <= p <= q < chain.len(),
    ensures
        frac_le(chain[p].1.pair(), chain[q].1.pair()),
    decreases q - p,
{
    assert(stage_ok(sg, dev, chain, q));
    if p == q {
        crate::rational::lemma_frac_le_refl(chain[p].1.pair());
    } else {
        lemma_chain_latency_steps(sg, dev, chain, p, q - 1);
        assert(stage_ok(sg, dev, chain, q - 1));
        assert(chain_before(chain, q) == chain[q - 1].1.pair());
        let e = chain[q];
        crate::rational::lemma_add_grows(
            chain[q - 1].1.pair(),
            stage_cost(e.0.subgraph, dev, e.0.tile_size, chain_retained(chain, q)),
        );
        assert(stage_ok(sg, dev, chain, p));
        crate::rational::lemma_frac_le_trans(chain[p].1.pair(), chain[q - 1].1.pair(), chain[q].1.pair());
    }
}

/// Appending the step from `before` to `after` to a chain that ends at
/// `before` gives a chain that ends at `after`.
#[verifier::spinoff_prover]
proof fn lemma_chain_push<'a>(
    sg: Subgraph,
    dev: DeviceParameters,
    r0: Seq<(Partition<'a>, Rational)>,
    e: (Partition<'a>, Rational),
    before: Partition<'a>,
    after: Partition<'a>,
    cb: Rational,
)
    requires
        step_ok(sg, dev, before, after, cb, e.1, e.0.subgraph),
        e.0.retained_outputs@ == after.retained_outputs@,
        e.0.tile_size == after.tile_size,
        e.1.denom > 0,
        (if r0.len() > 0 {
            r0[r0.len() - 1].0.retained_outputs@
        } else {
            Seq::<TensorId>::empty()
        }) == before.retained_outputs@,
        chain_before(r0, r0.len() as int) == cb.pair(),
        forall|x: OperationId| before.subgraph.has(x) <==> chain_runs(r0, x),
        chain_disjoint(r0),
        chain_ok(sg, dev, r0),
    ensures
        ({
            let rn = r0.push(e);
            &&& rn[rn.len() - 1].0.retained_outputs@ == after.retained_outputs@
            &&& chain_before(rn, rn.len() as int) == e.1.pair()
            &&& forall|x: OperationId| after.subgraph.has(x) <==> chain_runs(rn, x)
            &&& chain_disjoint(rn)
            &&& chain_ok(sg, dev, rn)
        }),
{
    let rn = r0.push(e);
    let lp = r0.len() as int;
    assert(rn[lp] == e);
    assert(chain_retained(rn, lp) =~= before.retained_outputs@ + after.retained_outputs@) by {
        if lp > 0 {
            assert(rn[lp - 1] == r0[lp - 1]);
        }
    }
    assert(chain_before(rn, lp) == cb.pair()) by {
        if lp > 0 {
            assert(rn[lp - 1] == r0[lp - 1]);
        }
    }
    assert forall|p: int| 0 <= p < rn.len() implies #[trigger] stage_ok(sg, dev, rn, p) by {
        if p < lp {
            assert(stage_ok(sg, dev, r0, p));
            assert(rn[p] == r0[p]);
            if p > 0 {
                assert(rn[p - 1] == r0[p - 1]);
            }
            assert(chain_retained(rn, p) =~= chain_retained(r0, p));
            assert(chain_before(rn, p) == chain_before(r0, p));
            assert(rn.take(p) =~= r0.take(p));
            assert(runs_before(rn, p) =~= runs_before(r0, p));
        } else {
            assert(rn.take(lp) =~= r0);
            assert(executed_by(before.subgraph) =~= runs_before(rn, lp));
            assert forall|op: OperationId, q: OperationId|
                #[trigger] e.0.subgraph.has(op) && #[trigger] in_sub_pred(sg, q, op) implies e.0.subgraph.has(q)
                    || chain_runs(rn.take(p), q) by {
                if !e.0.subgraph.has(q) {
                    assert(before.subgraph.has(q));
                }
            }
        }
    }
    assert forall|x: OperationId| after.subgraph.has(x) <==> chain_runs(rn, x) by {
        if after.subgraph.has(x) {
            if before.subgraph.has(x) {
                assert(chain_runs(r0, x));
                let p = choose|p: int| 0 <= p < r0.len() && #[trigger] r0[p].0.subgraph.has(x);
                assert(rn[p] == r0[p]);
            } else {
                assert(rn[lp].0.subgraph.has(x));
            }
        }
        if chain_runs(rn, x) {
            let p = choose|p: int| 0 <= p < rn.len() && #[trigger] rn[p].0.subgraph.has(x);
            if p < lp {
                assert(rn[p] == r0[p]);
                assert(chain_runs(r0, x));
            }
        }
    }
    assert forall|p: int, q: int, x: OperationId|
        0 <= p < q < rn.len() implies !(#[trigger] rn[p].0.subgraph.has(x) && #[trigger] rn[q].0.subgraph.has(x)) by {
        assert(rn[p] == r0[p]);
        if q < lp {
            assert(rn[q] == r0[q]);
        } else if r0[p].0.subgraph.has(x) {
            assert(chain_runs(r0, x));
        }
    }
}

/// The latency reached before stage `p` of a plan: none before the first.
pub open spec fn chain_before<'a>(chain: Seq<(Partition<'a>, Rational)>, p: int) -> (nat, nat) {
    if p > 0 {
        chain[p - 1].1.pair()
    } else {
        zero_pair()
    }
}

} // verus!
