//! Blocks of raw draws, and the elementwise maximum that combines them.
//!
//! A block holds the 64-bit draws themselves; a consumer that wants values
//! in [0, 1] divides each by `u64::MAX`. That map is monotone, so the
//! maximum of two draws maps to the maximum of their unit values.

use crate::frandom::{draws, lcg_iter, LocalRng};
use vstd::prelude::*;

verus! {

/// The larger of two draws.
pub open spec fn max_u64(a: u64, b: u64) -> u64 {
    if a >= b {
        a
    } else {
        b
    }
}

/// The elementwise maximum of two blocks, as long as the first.
pub open spec fn max_merge(a: Seq<u64>, b: Seq<u64>) -> Seq<u64> {
    Seq::new(a.len(), |k: int| max_u64(a[k], b[k]))
}

/// Make a block of `b` draws from `rng`, in the order they are drawn.
pub fn make_block(b: usize, rng: &mut LocalRng) -> (r: Vec<u64>)
    ensures
        r@ == draws(old(rng)@, b as nat),
        final(rng)@ == lcg_iter(old(rng)@, b as nat),
{
    let mut block: Vec<u64> = Vec::with_capacity(b);
    let mut i: usize = 0;
    while i < b
        invariant
            i <= b,
            block@ == draws(old(rng)@, i as nat),
            rng@ == lcg_iter(old(rng)@, i as nat),
        decreases b - i,
    {
        let v = rng.random();
        block.push(v);
        i = i + 1;
        assert(block@ =~= draws(old(rng)@, i as nat));
    }
    block
}

/// Replace each element of `acc` by the larger of it and the element of
/// `more` at the same index.
pub fn merge_max(acc: &mut Vec<u64>, more: &Vec<u64>)
    requires
        old(acc)@.len() == more@.len(),
    ensures
        final(acc)@ == max_merge(old(acc)@, more@),
{
    let n = acc.len();
    let mut i: usize = 0;
    while i < n
        invariant
            n == acc@.len(),
            n == more@.len(),
            i <= n,
            forall|k: int| 0 <= k < i ==> acc@[k] == max_u64(old(acc)@[k], more@[k]),
            forall|k: int| i <= k < n ==> acc@[k] == old(acc)@[k],
        decreases n - i,
    {
        if more[i] > acc[i] {
            acc.set(i, more[i]);
        }
        i = i + 1;
    }
    assert(acc@ =~= max_merge(old(acc)@, more@));
}

/// Merging a block with itself leaves it as it is, and merging is symmetric:
/// element `k` of the merge of `a` and `b` is the larger of `a[k]` and `b[k]`
/// whichever comes first.
pub proof fn lemma_merge_self_and_symmetric(a: Seq<u64>, b: Seq<u64>)
    requires
        a.len() == b.len(),
    ensures
        max_merge(a, a) == a,
        max_merge(a, b) == max_merge(b, a),
        forall|k: int| 0 <= k < a.len() ==> max_merge(a, b)[k] >= a[k] && max_merge(a, b)[k] >= b[k],
        forall|k: int| 0 <= k < a.len() ==> max_merge(a, b)[k] == a[k] || max_merge(a, b)[k] == b[k],
{
    assert(max_merge(a, a) =~= a);
    assert(max_merge(a, b) =~= max_merge(b, a));
}

} // verus!
