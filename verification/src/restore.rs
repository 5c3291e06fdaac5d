use vstd::prelude::*;
use crate::order::{is_order_of, lemma_order_position};
use crate::patch::{apply_writes, writes_to, writes_agree, lemma_apply_agreeing_writes};
use crate::schedule::{step_start, step_end, schedule_is_complete, lemma_steps_partition, lemma_step_of_position, lemma_steps_start_nonneg, lemma_steps_disjoint};

verus! {

/// The writes that a step makes for the positions `order[start .. end]` of the part of
/// `orig` that begins at `offset`: each goes to `offset + order[j]` and carries the
/// value `orig` holds there.
pub open spec fn range_writes<V>(orig: Seq<V>, order: Seq<usize>, offset: int, start: int, end: int) -> Seq<(usize, V)> {
    Seq::new(
        (end - start) as nat,
        |j: int| ((order[start + j] + offset) as usize, orig[order[start + j] + offset]),
    )
}

/// `orig.len() == offset + len`, with everything fitting in `usize`.
pub open spec fn split_ok<V>(orig: Seq<V>, offset: int, len: int) -> bool {
    &&& 0 <= offset
    &&& 0 <= len
    &&& orig.len() == offset + len
    &&& orig.len() <= usize::MAX
}

/// The writes of a range carry `orig`'s values to their places, which are
/// `offset + order[j]`.
pub proof fn lemma_range_writes_agree<V>(orig: Seq<V>, order: Seq<usize>, offset: int, len: int, start: int, end: int)
    requires
        split_ok(orig, offset, len),
        is_order_of(order, len as nat),
        0 <= start <= end <= len,
    ensures
        writes_agree(range_writes(orig, order, offset, start, end), orig),
        forall|j: int|
            0 <= j < end - start ==> (#[trigger] range_writes(orig, order, offset, start, end)[j]).0
                == order[start + j] + offset,
{
    let w = range_writes(orig, order, offset, start, end);
    assert forall|j: int| 0 <= j < w.len() implies (#[trigger] w[j]).0 < orig.len() && w[j].1 == orig[w[j].0 as int] by {
        assert(order[start + j] < len);
    }
}

/// Two different steps write to different positions: no position is sent twice.
pub proof fn lemma_step_writes_disjoint<V>(
    orig: Seq<V>,
    order: Seq<usize>,
    offset: int,
    len: int,
    total_steps: int,
    min_per_step: int,
    k1: int,
    k2: int,
)
    requires
        split_ok(orig, offset, len),
        is_order_of(order, len as nat),
        0 < total_steps,
        0 <= min_per_step,
        0 <= k1 < k2,
        step_start(len, total_steps, min_per_step, k1) <= step_end(len, total_steps, min_per_step, k1),
        step_start(len, total_steps, min_per_step, k2) <= step_end(len, total_steps, min_per_step, k2),
    ensures
        forall|i: int, j: int|
            0 <= i < range_writes(
                orig,
                order,
                offset,
                step_start(len, total_steps, min_per_step, k1),
                step_end(len, total_steps, min_per_step, k1),
            ).len() && 0 <= j < range_writes(
                orig,
                order,
                offset,
                step_start(len, total_steps, min_per_step, k2),
                step_end(len, total_steps, min_per_step, k2),
            ).len() ==> (#[trigger] range_writes(
                orig,
                order,
                offset,
                step_start(len, total_steps, min_per_step, k1),
                step_end(len, total_steps, min_per_step, k1),
            )[i]).0 != (#[trigger] range_writes(
                orig,
                order,
                offset,
                step_start(len, total_steps, min_per_step, k2),
                step_end(len, total_steps, min_per_step, k2),
            )[j]).0,
{
    let st1 = step_start(len, total_steps, min_per_step, k1);
    let en1 = step_end(len, total_steps, min_per_step, k1);
    let st2 = step_start(len, total_steps, min_per_step, k2);
    let en2 = step_end(len, total_steps, min_per_step, k2);
    lemma_steps_disjoint(len, total_steps, min_per_step, k1, k2);
    lemma_steps_start_nonneg(len, total_steps, min_per_step, k1);
    lemma_steps_start_nonneg(len, total_steps, min_per_step, k2);
    lemma_range_writes_agree(orig, order, offset, len, st1, en1);
    lemma_range_writes_agree(orig, order, offset, len, st2, en2);
    let w1 = range_writes(orig, order, offset, st1, en1);
    let w2 = range_writes(orig, order, offset, st2, en2);
    assert forall|i: int, j: int| 0 <= i < w1.len() && 0 <= j < w2.len() implies (#[trigger] w1[i]).0 != (#[trigger] w2[j]).0 by {
        assert(w1[i].0 == order[st1 + i] + offset);
        assert(w2[j].0 == order[st2 + j] + offset);
        assert(st1 + i != st2 + j);
    }
}

/// Every position from `offset` on is written by some step of a schedule with no gap.
pub proof fn lemma_steps_cover<V>(
    orig: Seq<V>,
    order: Seq<usize>,
    offset: int,
    len: int,
    total_steps: int,
    min_per_step: int,
    k: int,
) -> (s: int)
    requires
        split_ok(orig, offset, len),
        schedule_is_complete(len, total_steps, min_per_step),
        is_order_of(order, len as nat),
        offset <= k < offset + len,
    ensures
        0 <= s < total_steps,
        writes_to(
            range_writes(
                orig,
                order,
                offset,
                step_start(len, total_steps, min_per_step, s),
                step_end(len, total_steps, min_per_step, s),
            ),
            k,
        ),
{
    let j = lemma_order_position(order, len as nat, k - offset);
    let s = lemma_step_of_position(len, total_steps, min_per_step, j);
    let st = step_start(len, total_steps, min_per_step, s);
    let en = step_end(len, total_steps, min_per_step, s);
    lemma_steps_start_nonneg(len, total_steps, min_per_step, s);
    lemma_range_writes_agree(orig, order, offset, len, st, en);
    let w = range_writes(orig, order, offset, st, en);
    assert(w[j - st].0 == k);
    s
}

/// `cur` after the writes of the steps `0 .. n` of a schedule over `len` positions.
pub open spec fn merge_steps<V>(
    cur: Seq<V>,
    orig: Seq<V>,
    order: Seq<usize>,
    offset: int,
    len: int,
    total_steps: int,
    min_per_step: int,
    n: int,
) -> Seq<V>
    decreases n,
{
    if n <= 0 {
        cur
    } else {
        apply_writes(
            merge_steps(cur, orig, order, offset, len, total_steps, min_per_step, n - 1),
            range_writes(
                orig,
                order,
                offset,
                step_start(len, total_steps, min_per_step, n - 1),
                step_end(len, total_steps, min_per_step, n - 1),
            ),
        )
    }
}

/// Some step below `n` writes position `k`.
pub open spec fn written_before<V>(
    orig: Seq<V>,
    order: Seq<usize>,
    offset: int,
    len: int,
    total_steps: int,
    min_per_step: int,
    n: int,
    k: int,
) -> bool {
    exists|s: int|
        0 <= s < n && writes_to(
            #[trigger] range_writes(
                orig,
                order,
                offset,
                step_start(len, total_steps, min_per_step, s),
                step_end(len, total_steps, min_per_step, s),
            ),
            k,
        )
}

/// Progress: after the steps `0 .. n`, a position holds `orig`'s value if one of those
/// steps sent it, and `cur`'s otherwise.
pub proof fn lemma_merge_steps<V>(
    cur: Seq<V>,
    orig: Seq<V>,
    order: Seq<usize>,
    offset: int,
    len: int,
    total_steps: int,
    min_per_step: int,
    n: int,
)
    requires
        split_ok(orig, offset, len),
        cur.len() == orig.len(),
        schedule_is_complete(len, total_steps, min_per_step),
        is_order_of(order, len as nat),
        0 <= n <= total_steps,
    ensures
        merge_steps(cur, orig, order, offset, len, total_steps, min_per_step, n).len() == cur.len(),
        forall|k: int|
            0 <= k < cur.len() ==> #[trigger] merge_steps(cur, orig, order, offset, len, total_steps, min_per_step, n)[k]
                == if written_before(orig, order, offset, len, total_steps, min_per_step, n, k) {
                orig[k]
            } else {
                cur[k]
            },
    decreases n,
{
    if n > 0 {
        lemma_merge_steps(cur, orig, order, offset, len, total_steps, min_per_step, n - 1);
        let st = step_start(len, total_steps, min_per_step, n - 1);
        let en = step_end(len, total_steps, min_per_step, n - 1);
        lemma_steps_partition(len, total_steps, min_per_step);
        lemma_steps_start_nonneg(len, total_steps, min_per_step, n - 1);
        let prev = merge_steps(cur, orig, order, offset, len, total_steps, min_per_step, n - 1);
        let w = range_writes(orig, order, offset, st, en);
        lemma_range_writes_agree(orig, order, offset, len, st, en);
        lemma_apply_agreeing_writes(prev, orig, w);
        assert forall|k: int| 0 <= k < cur.len() implies #[trigger] merge_steps(cur, orig, order, offset, len, total_steps, min_per_step, n)[k]
            == if written_before(orig, order, offset, len, total_steps, min_per_step, n, k) {
            orig[k]
        } else {
            cur[k]
        } by {
            if writes_to(w, k) {
                assert(written_before(orig, order, offset, len, total_steps, min_per_step, n, k));
            } else if written_before(orig, order, offset, len, total_steps, min_per_step, n, k) {
                let s = choose|s: int|
                    0 <= s < n && writes_to(
                        #[trigger] range_writes(
                            orig,
                            order,
                            offset,
                            step_start(len, total_steps, min_per_step, s),
                            step_end(len, total_steps, min_per_step, s),
                        ),
                        k,
                    );
                assert(s != n - 1);
                assert(written_before(orig, order, offset, len, total_steps, min_per_step, n - 1, k));
            } else {
                assert forall|s: int| 0 <= s < n - 1 implies !writes_to(
                    #[trigger] range_writes(
                        orig,
                        order,
                        offset,
                        step_start(len, total_steps, min_per_step, s),
                        step_end(len, total_steps, min_per_step, s),
                    ),
                    k,
                ) by {
                    assert(0 <= s < n);
                }
            }
        }
    }
}

/// Reconstruction: writing the steps `0 .. total_steps` of a schedule with no gap into
/// `cur`, in order, gives `orig` on every position from `offset` on and leaves `cur` as
/// it was before `offset`, for any order in which the positions are sent.
pub proof fn lemma_all_steps_restore<V>(
    cur: Seq<V>,
    orig: Seq<V>,
    order: Seq<usize>,
    offset: int,
    len: int,
    total_steps: int,
    min_per_step: int,
)
    requires
        split_ok(orig, offset, len),
        cur.len() == orig.len(),
        schedule_is_complete(len, total_steps, min_per_step),
        is_order_of(order, len as nat),
    ensures
        merge_steps(cur, orig, order, offset, len, total_steps, min_per_step, total_steps).len() == orig.len(),
        forall|k: int|
            0 <= k < orig.len() ==> #[trigger] merge_steps(cur, orig, order, offset, len, total_steps, min_per_step, total_steps)[k]
                == if k >= offset {
                orig[k]
            } else {
                cur[k]
            },
{
    lemma_merge_steps(cur, orig, order, offset, len, total_steps, min_per_step, total_steps);
    let res = merge_steps(cur, orig, order, offset, len, total_steps, min_per_step, total_steps);
    assert forall|k: int| 0 <= k < orig.len() implies #[trigger] res[k] == if k >= offset {
        orig[k]
    } else {
        cur[k]
    } by {
        if k >= offset {
            let s = lemma_steps_cover(orig, order, offset, len, total_steps, min_per_step, k);
            assert(written_before(orig, order, offset, len, total_steps, min_per_step, total_steps, k));
        } else {
            if written_before(orig, order, offset, len, total_steps, min_per_step, total_steps, k) {
                let s = choose|s: int|
                    0 <= s < total_steps && writes_to(
                        #[trigger] range_writes(
                            orig,
                            order,
                            offset,
                            step_start(len, total_steps, min_per_step, s),
                            step_end(len, total_steps, min_per_step, s),
                        ),
                        k,
                    );
                let st = step_start(len, total_steps, min_per_step, s);
                let en = step_end(len, total_steps, min_per_step, s);
                lemma_steps_partition(len, total_steps, min_per_step);
                lemma_steps_start_nonneg(len, total_steps, min_per_step, s);
                lemma_range_writes_agree(orig, order, offset, len, st, en);
                let w = range_writes(orig, order, offset, st, en);
                let j = choose|j: int| 0 <= j < w.len() && (#[trigger] w[j]).0 == k;
            }
        }
    }
}

} // verus!
