//! The steps of the two pipeline strategies. A running block is combined,
//! round after round or stage after stage, with a freshly drawn block by the
//! elementwise maximum.

use crate::block::{make_block, max_merge, max_u64, merge_max};
use crate::frandom::{draws, lcg_iter, lemma_lcg_iter_add, LocalRng};
use vstd::prelude::*;

verus! {

/// The running block of a pipeline driven by one generator from state `s`
/// after `m` merges: the first block drawn, merged in turn with each of the
/// `m` blocks of `b` draws that follow it.
pub open spec fn chain(s: u64, b: nat, m: nat) -> Seq<u64>
    decreases m,
{
    if m == 0 {
        draws(s, b)
    } else {
        max_merge(chain(s, b, (m - 1) as nat), draws(lcg_iter(s, m * b), b))
    }
}

/// Element `k` of the block that starts at draw `j * b`.
pub open spec fn column_draw(s: u64, b: nat, j: nat, k: nat) -> u64 {
    lcg_iter(s, j * b + k)
}

/// One round: draw a block as long as `running` and merge it in.
pub fn pipeline_round(running: &mut Vec<u64>, rng: &mut LocalRng)
    ensures
        final(running)@ == max_merge(old(running)@, draws(old(rng)@, old(running)@.len())),
        final(rng)@ == lcg_iter(old(rng)@, old(running)@.len()),
{
    let more = make_block(running.len(), rng);
    merge_max(running, &more);
}

/// The work of one stage: take the block handed over by the previous stage,
/// or draw a fresh one at the first stage, and merge a block of its own into
/// it. The result is what the stage reduces and hands on.
pub fn pipeline_stage(input: Option<Vec<u64>>, b: usize, rng: &mut LocalRng) -> (r: Vec<u64>)
    requires
        input matches Some(v) ==> v@.len() == b,
    ensures
        input is None ==> r@ == chain(old(rng)@, b as nat, 1),
        input is None ==> final(rng)@ == lcg_iter(old(rng)@, 2 * b as nat),
        input matches Some(v) ==> r@ == max_merge(v@, draws(old(rng)@, b as nat)),
        input is Some ==> final(rng)@ == lcg_iter(old(rng)@, b as nat),
{
    let ghost s = rng@;
    let mut running = match input {
        None => make_block(b, rng),
        Some(v) => v,
    };
    pipeline_round(&mut running, rng);
    proof {
        if input is None {
            lemma_lcg_iter_add(s, b as nat, b as nat);
            assert(chain(s, b as nat, 0) == draws(s, b as nat));
        }
    }
    running
}

/// Whether stage `j` of an `n`-stage pipeline hands its block on: every
/// stage but the last does.
pub fn forwards(j: usize, n: usize) -> (r: bool)
    requires
        j < n,
    ensures
        r == (j + 1 < n),
{
    j + 1 < n
}

/// Run the stages of an `n`-stage pipeline one after another with a single
/// generator, and return the last stage's block; `None` when there is no
/// stage.
pub fn replay_pipeline(b: usize, n: usize, rng: &mut LocalRng) -> (r: Option<Vec<u64>>)
    ensures
        r is None <==> n == 0,
        r matches Some(v) ==> v@ == chain(old(rng)@, b as nat, n as nat),
        n > 0 ==> final(rng)@ == lcg_iter(old(rng)@, ((n + 1) * b) as nat),
        n == 0 ==> final(rng)@ == old(rng)@,
{
    if n == 0 {
        return None;
    }
    let ghost s = rng@;
    let mut block = pipeline_stage(None, b, rng);
    proof {
        lemma_chain_len(s, b as nat, 1);
    }
    let mut j: usize = 1;
    while j < n
        invariant
            1 <= j <= n,
            block@ == chain(s, b as nat, j as nat),
            block@.len() == b,
            rng@ == lcg_iter(s, ((j + 1) * b) as nat),
        decreases n - j,
    {
        block = pipeline_stage(Some(block), b, rng);
        proof {
            lemma_chain_len(s, b as nat, (j + 1) as nat);
            lemma_lcg_iter_add(s, ((j + 1) * b) as nat, b as nat);
            assert((j + 1) * b + b == (j + 2) * b) by (nonlinear_arith);
        }
        j = j + 1;
    }
    Some(block)
}

/// Each block of the chain is as long as the blocks drawn.
pub proof fn lemma_chain_len(s: u64, b: nat, m: nat)
    ensures
        chain(s, b, m).len() == b,
    decreases m,
{
    if m > 0 {
        lemma_chain_len(s, b, (m - 1) as nat);
    }
}

/// After `n` merges, element `k` of the running block is the maximum of the
/// `n + 1` draws at position `k` of the blocks drawn: at least each of them,
/// and equal to one of them.
pub proof fn lemma_chain_is_column_max(s: u64, b: nat, n: nat, k: nat)
    requires
        k < b,
    ensures
        forall|j: nat| j <= n ==> chain(s, b, n)[k as int] >= #[trigger] column_draw(s, b, j, k),
        exists|j: nat| j <= n && chain(s, b, n)[k as int] == #[trigger] column_draw(s, b, j, k),
    decreases n,
{
    lemma_chain_len(s, b, n);
    if n == 0 {
        lemma_lcg_iter_add(s, 0, k);
        assert(0 * b + k == k);
        assert(chain(s, b, 0)[k as int] == column_draw(s, b, 0, k));
    } else {
        let m = (n - 1) as nat;
        lemma_chain_is_column_max(s, b, m, k);
        lemma_chain_len(s, b, m);
        lemma_lcg_iter_add(s, n * b, k);
        let prev = chain(s, b, m)[k as int];
        let fresh = column_draw(s, b, n, k);
        assert(draws(lcg_iter(s, n * b), b)[k as int] == fresh);
        assert(chain(s, b, n)[k as int] == max_u64(prev, fresh));
        let jm = choose|j: nat| j <= m && prev == #[trigger] column_draw(s, b, j, k);
        if prev >= fresh {
            assert(chain(s, b, n)[k as int] == column_draw(s, b, jm, k));
        } else {
            assert(chain(s, b, n)[k as int] == column_draw(s, b, n, k));
        }
        assert forall|j: nat| j <= n implies chain(s, b, n)[k as int] >= #[trigger] column_draw(
            s,
            b,
            j,
            k,
        ) by {
            if j < n {
                assert(prev >= column_draw(s, b, j, k));
            }
        }
    }
}

} // verus!
