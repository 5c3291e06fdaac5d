use vstd::prelude::*;

verus! {

/// The sequence `cur` after the writes `writes[0]`, `writes[1]`, ... were made in that
/// order, each write `(k, v)` putting `v` at position `k`.
pub open spec fn apply_writes<V>(cur: Seq<V>, writes: Seq<(usize, V)>) -> Seq<V>
    decreases writes.len(),
{
    if writes.len() == 0 {
        cur
    } else {
        apply_writes(cur, writes.drop_last()).update(writes.last().0 as int, writes.last().1)
    }
}

/// Every write of `writes` lands inside a sequence of length `len`.
pub open spec fn writes_in_bounds<V>(writes: Seq<(usize, V)>, len: nat) -> bool {
    forall|j: int| 0 <= j < writes.len() ==> (#[trigger] writes[j]).0 < len
}

/// Whether every write of `writes` lands inside a sequence of length `len`.
pub fn writes_fit<V>(writes: &Vec<(usize, V)>, len: usize) -> (r: bool)
    ensures
        r == writes_in_bounds(writes@, len as nat),
{
    let mut t: usize = 0;
    while t < writes.len()
        invariant
            t <= writes.len(),
            forall|j: int| 0 <= j < t ==> (#[trigger] writes@[j]).0 < len,
        decreases writes.len() - t,
    {
        if writes[t].0 >= len {
            return false;
        }
        t = t + 1;
    }
    true
}

/// Some write of `writes` goes to position `k`.
pub open spec fn writes_to<V>(writes: Seq<(usize, V)>, k: int) -> bool {
    exists|j: int| 0 <= j < writes.len() && (#[trigger] writes[j]).0 == k
}

/// Every write of `writes` puts at its position the value that `orig` holds there.
pub open spec fn writes_agree<V>(writes: Seq<(usize, V)>, orig: Seq<V>) -> bool {
    forall|j: int|
        0 <= j < writes.len() ==> (#[trigger] writes[j]).0 < orig.len() && writes[j].1
            == orig[writes[j].0 as int]
}

/// Writes that stay in bounds keep the length.
pub proof fn lemma_apply_writes_len<V>(cur: Seq<V>, writes: Seq<(usize, V)>)
    requires
        writes_in_bounds(writes, cur.len()),
    ensures
        apply_writes(cur, writes).len() == cur.len(),
    decreases writes.len(),
{
    if writes.len() > 0 {
        let w = writes.drop_last();
        assert forall|j: int| 0 <= j < w.len() implies (#[trigger] w[j]).0 < cur.len() by {
            assert(w[j] == writes[j]);
        }
        lemma_apply_writes_len(cur, w);
    }
}

/// Writes that each copy a value of `orig` leave a position as `orig` has it if some
/// write went there, and as `cur` had it otherwise.
pub proof fn lemma_apply_agreeing_writes<V>(cur: Seq<V>, orig: Seq<V>, writes: Seq<(usize, V)>)
    requires
        cur.len() == orig.len(),
        writes_agree(writes, orig),
    ensures
        apply_writes(cur, writes).len() == cur.len(),
        forall|k: int|
            0 <= k < cur.len() ==> #[trigger] apply_writes(cur, writes)[k] == if writes_to(
                writes,
                k,
            ) {
                orig[k]
            } else {
                cur[k]
            },
    decreases writes.len(),
{
    if writes.len() > 0 {
        let w = writes.drop_last();
        let last = writes.last();
        assert forall|j: int| 0 <= j < w.len() implies (#[trigger] w[j]).0 < orig.len() && w[j].1
            == orig[w[j].0 as int] by {
            assert(w[j] == writes[j]);
        }
        lemma_apply_agreeing_writes(cur, orig, w);
        assert(writes[writes.len() - 1] == last);
        assert forall|k: int| 0 <= k < cur.len() implies #[trigger] apply_writes(cur, writes)[k]
            == if writes_to(writes, k) {
            orig[k]
        } else {
            cur[k]
        } by {
            if k == last.0 as int {
                assert(writes_to(writes, k));
            } else {
                if writes_to(writes, k) {
                    let j = choose|j: int| 0 <= j < writes.len() && (#[trigger] writes[j]).0 == k;
                    assert(w[j] == writes[j]);
                    assert(writes_to(w, k));
                } else {
                    if writes_to(w, k) {
                        let j = choose|j: int| 0 <= j < w.len() && (#[trigger] w[j]).0 == k;
                        assert(w[j] == writes[j]);
                    }
                }
            }
        }
    }
}

/// Merging again writes that copy values of `orig` changes nothing.
pub proof fn lemma_agreeing_writes_idempotent<V>(cur: Seq<V>, orig: Seq<V>, writes: Seq<(usize, V)>)
    requires
        cur.len() == orig.len(),
        writes_agree(writes, orig),
    ensures
        apply_writes(apply_writes(cur, writes), writes) == apply_writes(cur, writes),
{
    let once = apply_writes(cur, writes);
    lemma_apply_agreeing_writes(cur, orig, writes);
    lemma_apply_agreeing_writes(once, orig, writes);
    assert(apply_writes(once, writes) =~= once);
}

/// Two batches of writes that copy values of `orig` give the same result in either
/// order.
pub proof fn lemma_agreeing_writes_commute<V>(
    cur: Seq<V>,
    orig: Seq<V>,
    first: Seq<(usize, V)>,
    second: Seq<(usize, V)>,
)
    requires
        cur.len() == orig.len(),
        writes_agree(first, orig),
        writes_agree(second, orig),
    ensures
        apply_writes(apply_writes(cur, first), second) == apply_writes(apply_writes(cur, second), first),
{
    let a = apply_writes(cur, first);
    let b = apply_writes(cur, second);
    lemma_apply_agreeing_writes(cur, orig, first);
    lemma_apply_agreeing_writes(cur, orig, second);
    lemma_apply_agreeing_writes(a, orig, second);
    lemma_apply_agreeing_writes(b, orig, first);
    assert(apply_writes(a, second) =~= apply_writes(b, first));
}

} // verus!
