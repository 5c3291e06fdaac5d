use vstd::prelude::*;

verus! {

/// Number of items that every step carries at least (before the minimum is added).
pub open spec fn per_step(len: int, total_steps: int) -> int {
    len / total_steps
}

/// First position (in the shuffled order) that step `step` sends.
pub open spec fn step_start(len: int, total_steps: int, min_per_step: int, step: int) -> int {
    per_step(len, total_steps) * step + if step >= 1 { min_per_step } else { 0 }
}

/// Position just past the last one that step `step` sends.
pub open spec fn step_end(len: int, total_steps: int, min_per_step: int, step: int) -> int {
    let want = per_step(len, total_steps) * (step + 1) + min_per_step;
    if want <= len { want } else { len }
}

/// The arithmetic of `step_bounds` stays within `usize`.
pub open spec fn step_bounds_fit(len: int, total_steps: int, min_per_step: int, step: int) -> bool {
    &&& step + 1 <= usize::MAX
    &&& per_step(len, total_steps) * (step + 1) + min_per_step <= usize::MAX
}

proof fn lemma_per_step_bounds(len: int, total_steps: int, step: int)
    requires
        0 <= len,
        0 < total_steps,
        0 <= step,
    ensures
        0 <= per_step(len, total_steps) * step <= per_step(len, total_steps) * (step + 1),
        0 <= per_step(len, total_steps),
{
    assert(0 <= len / total_steps) by (nonlinear_arith)
        requires 0 <= len, 0 < total_steps;
    let p = len / total_steps;
    assert(0 <= p * step <= p * (step + 1)) by (nonlinear_arith)
        requires 0 <= p, 0 <= step;
}

/// The range `[start, end)` of the shuffled order that step `current_step` sends, when
/// the items are spread over `total_steps` steps and every step sends `min_per_step`
/// more (the first step its extra items at the front, the others at the back).
pub fn step_bounds(len: usize, total_steps: usize, min_per_step: usize, current_step: usize) -> (r: (usize, usize))
    requires
        total_steps > 0,
        step_bounds_fit(len as int, total_steps as int, min_per_step as int, current_step as int),
    ensures
        r.0 == step_start(len as int, total_steps as int, min_per_step as int, current_step as int),
        r.1 == step_end(len as int, total_steps as int, min_per_step as int, current_step as int),
{
    proof {
        lemma_per_step_bounds(len as int, total_steps as int, current_step as int);
    }
    let per = len / total_steps;
    let extra: usize = if current_step < 1 { 0 } else { min_per_step };
    let start = per * current_step + extra;
    let want = per * (current_step + 1) + min_per_step;
    let end = if want <= len { want } else { len };
    (start, end)
}

/// A step's range starts at or after 0 and ends at or before `len`.
pub proof fn lemma_steps_start_nonneg(len: int, total_steps: int, min_per_step: int, step: int)
    requires
        0 <= len,
        0 < total_steps,
        0 <= min_per_step,
        0 <= step,
    ensures
        0 <= step_start(len, total_steps, min_per_step, step),
        0 <= step_end(len, total_steps, min_per_step, step) <= len,
{
    lemma_per_step_bounds(len, total_steps, step);
}

/// The schedule has no gap and no overlap: every step's range is well formed and the
/// ranges of steps `0 .. total_steps` follow one another from 0 up to `len`.
pub open spec fn schedule_is_complete(len: int, total_steps: int, min_per_step: int) -> bool {
    &&& 0 <= len
    &&& 0 < total_steps
    &&& 0 <= min_per_step
    &&& len % total_steps <= min_per_step
    &&& (total_steps == 1 || per_step(len, total_steps) * (total_steps - 1) + min_per_step <= len)
}

/// When every step sends at least as many extra items as the division leaves over
/// (`len % total_steps <= min_per_step`), and, where there are several steps, the last
/// one still starts inside the data, the ranges of the steps `0 .. total_steps` partition `[0, len)`: the first one
/// starts at 0, each one ends where the next one starts, the last one ends at `len`,
/// and none of them is reversed.
pub proof fn lemma_steps_partition(len: int, total_steps: int, min_per_step: int)
    requires
        schedule_is_complete(len, total_steps, min_per_step),
    ensures
        step_start(len, total_steps, min_per_step, 0) == 0,
        step_end(len, total_steps, min_per_step, total_steps - 1) == len,
        forall|s: int|
            0 <= s < total_steps - 1 ==> #[trigger] step_end(len, total_steps, min_per_step, s)
                == step_start(len, total_steps, min_per_step, s + 1),
        forall|s: int|
            0 <= s < total_steps ==> #[trigger] step_start(len, total_steps, min_per_step, s)
                <= step_end(len, total_steps, min_per_step, s),
{
    let n = total_steps;
    let m = min_per_step;
    let p = per_step(len, n);
    assert(len == p * n + len % n && 0 <= p) by (nonlinear_arith)
        requires 0 <= len, 0 < n, p == len / n;
    assert(p * 0 == 0) by (nonlinear_arith);
    assert(step_end(len, n, m, n - 1) == len) by {
        assert(p * (n - 1 + 1) == p * n);
    }
    assert forall|s: int| 0 <= s < n - 1 implies #[trigger] step_end(len, n, m, s) == step_start(len, n, m, s + 1) by {
        assert(p * (s + 1) <= p * (n - 1)) by (nonlinear_arith)
            requires 0 <= p, s + 1 <= n - 1;
    }
    assert forall|s: int| 0 <= s < n implies #[trigger] step_start(len, n, m, s) <= step_end(len, n, m, s) by {
        assert(p * s <= p * (n - 1) && p * s <= p * (s + 1)) by (nonlinear_arith)
            requires 0 <= p, 0 <= s, s <= n - 1;
        if s == 0 {
            assert(p * (s + 1) >= 0) by (nonlinear_arith)
                requires 0 <= p, s == 0;
        }
    }
}

/// The range of a step, for any number of items, steps, minimum and step: every step
/// starts after `len / total_steps` items for each step before it (and, past step 0,
/// the minimum that step 0 sent first); a step sends `len / total_steps` items (step 0
/// that many plus the minimum) wherever they fit, and otherwise runs to the end.
pub proof fn lemma_step_range(len: int, total_steps: int, min_per_step: int, step: int)
    requires
        0 <= len,
        0 < total_steps,
        0 <= min_per_step,
        0 <= step,
    ensures
        step_start(len, total_steps, min_per_step, step) == (len / total_steps) * step + if step == 0 {
            0
        } else {
            min_per_step
        },
        (len / total_steps) * (step + 1) + min_per_step <= len ==> step_end(len, total_steps, min_per_step, step)
            - step_start(len, total_steps, min_per_step, step) == len / total_steps + if step == 0 {
            min_per_step
        } else {
            0
        },
        (len / total_steps) * (step + 1) + min_per_step > len ==> step_end(len, total_steps, min_per_step, step)
            == len,
{
    let p = len / total_steps;
    assert(p * (step + 1) == p * step + p) by (nonlinear_arith);
}

/// The steps never overlap: a step ends at or before the point where any later step
/// starts, so two different steps send disjoint ranges of the order.
pub proof fn lemma_steps_disjoint(len: int, total_steps: int, min_per_step: int, k1: int, k2: int)
    requires
        0 <= len,
        0 < total_steps,
        0 <= min_per_step,
        0 <= k1 < k2,
    ensures
        step_end(len, total_steps, min_per_step, k1) <= step_start(len, total_steps, min_per_step, k2),
{
    let p = per_step(len, total_steps);
    lemma_per_step_bounds(len, total_steps, k1);
    assert(p * (k1 + 1) <= p * k2) by (nonlinear_arith)
        requires 0 <= p, k1 + 1 <= k2;
}

/// Every position of `[0, len)` lies in the range of exactly one step of a complete
/// schedule; this returns that step.
pub proof fn lemma_step_of_position(len: int, total_steps: int, min_per_step: int, j: int) -> (s: int)
    requires
        schedule_is_complete(len, total_steps, min_per_step),
        0 <= j < len,
    ensures
        0 <= s < total_steps,
        step_start(len, total_steps, min_per_step, s) <= j < step_end(len, total_steps, min_per_step, s),
{
    lemma_steps_partition(len, total_steps, min_per_step);
    step_of_position_below(len, total_steps, min_per_step, j, total_steps - 1)
}

proof fn step_of_position_below(len: int, total_steps: int, min_per_step: int, j: int, k: int) -> (s: int)
    requires
        schedule_is_complete(len, total_steps, min_per_step),
        0 <= j,
        0 <= k < total_steps,
        j < step_end(len, total_steps, min_per_step, k),
        step_start(len, total_steps, min_per_step, 0) == 0,
        forall|s: int|
            0 <= s < total_steps - 1 ==> #[trigger] step_end(len, total_steps, min_per_step, s)
                == step_start(len, total_steps, min_per_step, s + 1),
    ensures
        0 <= s <= k,
        step_start(len, total_steps, min_per_step, s) <= j < step_end(len, total_steps, min_per_step, s),
    decreases k,
{
    if step_start(len, total_steps, min_per_step, k) <= j {
        k
    } else {
        assert(step_end(len, total_steps, min_per_step, k - 1) == step_start(len, total_steps, min_per_step, k));
        step_of_position_below(len, total_steps, min_per_step, j, k - 1)
    }
}

} // verus!
