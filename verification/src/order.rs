use vstd::prelude::*;
use rand::rngs::ChaCha8Rng;
use rand::seq::SliceRandom;
use rand::SeedableRng;

verus! {

/// The positions `0, 1, ..., n - 1` in increasing order.
pub open spec fn iota(n: nat) -> Seq<usize> {
    Seq::new(n, |i: int| i as usize)
}

/// `p` holds the items of `s` rearranged: `perm` says where each item of `p` comes
/// from, and `back` undoes it.
pub open spec fn rearranges<A>(p: Seq<A>, s: Seq<A>, perm: Seq<int>, back: Seq<int>) -> bool {
    &&& p.len() == s.len()
    &&& perm.len() == s.len()
    &&& back.len() == s.len()
    &&& forall|i: int|
        0 <= i < p.len() ==> 0 <= #[trigger] perm[i] < s.len() && back[perm[i]] == i && p[i]
            == s[perm[i]]
    &&& forall|k: int| 0 <= k < s.len() ==> 0 <= #[trigger] back[k] < s.len() && perm[back[k]] == k
}

/// `p` is a permutation of `s`.
pub open spec fn is_permutation_of<A>(p: Seq<A>, s: Seq<A>) -> bool {
    exists|perm: Seq<int>, back: Seq<int>| rearranges(p, s, perm, back)
}

/// `order` lists every position of `[0, n)` exactly once.
pub open spec fn is_order_of(order: Seq<usize>, n: nat) -> bool {
    &&& order.len() == n
    &&& forall|i: int| 0 <= i < n ==> #[trigger] order[i] < n
    &&& forall|i: int, j: int| 0 <= i < n && 0 <= j < n && i != j ==> order[i] != order[j]
    &&& forall|k: int| 0 <= k < n ==> #[trigger] lists(order, k)
}

/// Some entry of `order` is `k`.
pub open spec fn lists(order: Seq<usize>, k: int) -> bool {
    exists|i: int| 0 <= i < order.len() && #[trigger] order[i] == k
}

/// The order in which `SliceRandom::shuffle` leaves `items` when it draws from a
/// `ChaCha8Rng` made by `SeedableRng::seed_from_u64(seed)`.
pub uninterp spec fn seeded_shuffle(items: Seq<usize>, seed: u64) -> Seq<usize>;

/// Makes a `rand::rngs::ChaCha8Rng` with `SeedableRng::seed_from_u64(seed)` and shuffles
/// `v` in place with `rand::seq::SliceRandom::shuffle` drawing from it. Claimed: the
/// result depends only on the items and the seed (the generator is seeded and
/// deterministic), and it is a permutation of the items (the shuffle only swaps).
#[verifier::external_body]
fn shuffle_with_seed(v: &mut Vec<usize>, seed: u64)
    ensures
        final(v)@ == seeded_shuffle(old(v)@, seed),
        is_permutation_of(final(v)@, old(v)@),
{
    let mut rng = ChaCha8Rng::seed_from_u64(seed);
    v.shuffle(&mut rng);
}

/// A permutation of the positions `0 .. n` lists each of them exactly once.
pub proof fn lemma_permutation_of_iota_is_order(p: Seq<usize>, n: nat)
    requires
        is_permutation_of(p, iota(n)),
        n <= usize::MAX,
    ensures
        is_order_of(p, n),
{
    let s = iota(n);
    let (perm, back) = choose|perm: Seq<int>, back: Seq<int>| rearranges(p, s, perm, back);
    assert forall|i: int| 0 <= i < n implies #[trigger] p[i] < n && p[i] == perm[i] by {
        assert(p[i] == s[perm[i]]);
    }
    assert forall|i: int, j: int| 0 <= i < n && 0 <= j < n && i != j implies p[i] != p[j] by {
        assert(p[i] == perm[i]);
        assert(p[j] == perm[j]);
        assert(back[perm[i]] == i);
        assert(back[perm[j]] == j);
    }
    assert forall|k: int| 0 <= k < n implies #[trigger] lists(p, k) by {
        let i = back[k];
        assert(perm[i] == k);
        assert(p[i] == perm[i]);
    }
}

/// The positions `0 .. len` in the order a shuffle seeded with `seed` leaves them.
pub fn shuffled_order(len: usize, seed: u64) -> (r: Vec<usize>)
    ensures
        r@ == seeded_shuffle(iota(len as nat), seed),
        is_order_of(r@, len as nat),
{
    let mut v: Vec<usize> = Vec::new();
    let mut i: usize = 0;
    while i < len
        invariant
            i <= len,
            v@ == iota(i as nat),
        decreases len - i,
    {
        v.push(i);
        i = i + 1;
        assert(v@ =~= iota(i as nat));
    }
    shuffle_with_seed(&mut v, seed);
    proof {
        lemma_permutation_of_iota_is_order(v@, len as nat);
    }
    v
}

/// The position at which an order of `[0, n)` lists `k`.
pub proof fn lemma_order_position(order: Seq<usize>, n: nat, k: int) -> (i: int)
    requires
        is_order_of(order, n),
        0 <= k < n,
    ensures
        0 <= i < n,
        order[i] == k,
{
    assert(lists(order, k));
    choose|i: int| 0 <= i < order.len() && #[trigger] order[i] == k
}

} // verus!
