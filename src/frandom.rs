//! A linear congruential generator, shared through an atomic counter or
//! owned privately by one task.

use std::sync::atomic::AtomicU64;
use vstd::prelude::*;

verus! {

/// The multiplier of the generator step.
pub const MULTIPLIER: u64 = 2862933555777941757u64;

/// The increment of the generator step.
pub const INCREMENT: u64 = 3037000493u64;

/// One step of the generator: `n * MULTIPLIER + INCREMENT` modulo 2^64.
pub open spec fn lcg(n: u64) -> u64 {
    ((n as int * MULTIPLIER as int + INCREMENT as int) % 0x1_0000_0000_0000_0000int) as u64
}

/// The state reached after `k` steps from `s`.
pub open spec fn lcg_iter(s: u64, k: nat) -> u64
    decreases k,
{
    if k == 0 {
        s
    } else {
        lcg(lcg_iter(s, (k - 1) as nat))
    }
}

/// Taking `k` steps and then `j` more is taking `k + j` steps.
pub proof fn lemma_lcg_iter_add(s: u64, k: nat, j: nat)
    ensures
        lcg_iter(lcg_iter(s, k), j) == lcg_iter(s, k + j),
    decreases j,
{
    if j > 0 {
        lemma_lcg_iter_add(s, k, (j - 1) as nat);
    }
}

/// The `k` values that a private generator in state `s` hands out, in order.
pub open spec fn draws(s: u64, k: nat) -> Seq<u64> {
    Seq::new(k, |i: int| lcg_iter(s, i as nat))
}

/// The inverse of `MULTIPLIER` modulo 2^64.
pub const INVERSE: u64 = 16133697096952638549u64;

/// The state that one step takes to `r`.
pub open spec fn lcg_back(r: u64) -> u64 {
    (((r as int - INCREMENT as int) * INVERSE as int) % 0x1_0000_0000_0000_0000int) as u64
}

/// Stepping back undoes a step.
pub proof fn lemma_lcg_back(x: u64)
    ensures
        lcg_back(lcg(x)) == x,
{
    let m = 0x1_0000_0000_0000_0000int;
    let a = MULTIPLIER as int;
    let c = INCREMENT as int;
    let inv = INVERSE as int;
    let p = x as int * a + c;
    assert(a * inv == 1 + 2503948805982125087int * m);
    vstd::arithmetic::div_mod::lemma_small_mod(INCREMENT as nat, m as nat);
    vstd::arithmetic::div_mod::lemma_sub_mod_noop(p, c, m);
    assert((lcg(x) as int - c) % m == (x as int * a) % m);
    vstd::arithmetic::div_mod::lemma_mul_mod_noop_left(lcg(x) as int - c, inv, m);
    vstd::arithmetic::div_mod::lemma_mul_mod_noop_left(x as int * a, inv, m);
    assert(x as int * a * inv == x as int + m * (x as int * 2503948805982125087int))
        by (nonlinear_arith)
        requires
            a * inv == 1 + 2503948805982125087int * m,
    ;
    vstd::arithmetic::div_mod::lemma_mod_multiples_vanish(
        x as int * 2503948805982125087int,
        x as int,
        m,
    );
    vstd::arithmetic::div_mod::lemma_small_mod(x as nat, m as nat);
}

/// Distinct states step to distinct values: two callers whose updates
/// start from different counter values never receive the same draw.
pub proof fn lemma_lcg_injective(x: u64, y: u64)
    requires
        x != y,
    ensures
        lcg(x) != lcg(y),
{
    lemma_lcg_back(x);
    lemma_lcg_back(y);
}

/// A step always changes the state, so two consecutive draws differ.
pub proof fn lemma_lcg_moves(x: u64)
    ensures
        lcg(x) != x,
{
    let m = 0x1_0000_0000_0000_0000int;
    let p = x as int * MULTIPLIER as int + INCREMENT as int;
    if lcg(x) == x {
        vstd::arithmetic::div_mod::lemma_fundamental_div_mod(p, m);
        let q = p / m;
        assert(x as int * 2862933555777941756int + 3037000493int == m * q);
        assert(false) by (nonlinear_arith)
            requires
                x as int * 2862933555777941756int + 3037000493int == m * q,
                m == 0x1_0000_0000_0000_0000int,
        {
            assert(x as int * 2862933555777941756int + 3037000493int == 2 * (x as int
                * 1431466777888970878int + 1518500246) + 1);
            assert(m * q == 2 * (0x8000_0000_0000_0000int * q));
        }
    }
}

/// Advance the generator by one step.
pub fn next_rand(n: u64) -> (r: u64)
    ensures
        r == lcg(n),
{
    let m = n.wrapping_mul(MULTIPLIER);
    let r = m.wrapping_add(INCREMENT);
    proof {
        let p = n as int * MULTIPLIER as int;
        let q = 0x1_0000_0000_0000_0000int;
        assert(m as int == p % q);
        assert(r as int == (m as int + INCREMENT as int) % q);
        vstd::arithmetic::div_mod::lemma_add_mod_noop(p, INCREMENT as int, q);
        vstd::arithmetic::div_mod::lemma_mod_twice(INCREMENT as int, q);
        vstd::arithmetic::div_mod::lemma_small_mod(INCREMENT as nat, q as nat);
    }
    r
}

/// Relies on `AtomicU64::fetch_update`, which retries a compare-and-swap
/// until it installs the value that `next_rand` computes from the value it
/// read, and then returns `Ok` with that value read.
#[verifier::external_body]
fn fetch_advance(counter: &AtomicU64) -> (r: Result<u64, u64>)
    ensures
        r is Ok,
{
    counter.fetch_update(
        std::sync::atomic::Ordering::SeqCst,
        std::sync::atomic::Ordering::SeqCst,
        |current| Some(next_rand(current)),
    )
}

/// A generator that any number of tasks may draw from at once.
pub struct GlobalRng(AtomicU64);

impl GlobalRng {
    /// The seed of `GlobalRng::new`.
    pub const STD_SEED: u64 = 0x123456789abcdef0u64;

    /// Make a new global rng with the given seed.
    pub fn from_seed(seed: u64) -> (r: Self) {
        GlobalRng(AtomicU64::new(seed))
    }

    /// Make a new global rng seeded with `STD_SEED`.
    pub fn new() -> (r: Self) {
        Self::from_seed(Self::STD_SEED)
    }

    /// Produce a pseudo-random integer: the counter advanced by one step,
    /// which is installed atomically in its place. Will likely be slow in
    /// the presence of contention.
    ///
    /// Which value comes back depends on the draws that other tasks made
    /// before, so nothing is stated of it here;
    /// `crate::period::lemma_full_period` states that the successive counter
    /// values do not repeat.
    pub fn random(&self) -> (r: u64) {
        let previous = match fetch_advance(&self.0) {
            Ok(v) => v,
            Err(v) => v,
        };
        next_rand(previous)
    }

    /// Make a new local rng seeded with the exclusive or of two draws from
    /// this global rng.
    pub fn local_rng(&self) -> (r: LocalRng) {
        let a = self.random();
        let b = self.random();
        LocalRng::from_draws(a, b)
    }
}

impl Default for GlobalRng {
    fn default() -> (r: Self) {
        Self::new()
    }
}

/// A generator owned by a single task.
pub struct LocalRng(u64);

impl View for LocalRng {
    type V = u64;

    /// The generator's state: the value that the next draw hands out.
    closed spec fn view(&self) -> u64 {
        self.0
    }
}

impl LocalRng {
    /// Produce a new local rng with the given seed.
    pub fn from_seed(seed: u64) -> (r: Self)
        ensures
            r@ == seed,
    {
        LocalRng(seed)
    }

    /// Produce a new local rng seeded with the exclusive or of two draws,
    /// which decorrelates generators made one after another.
    pub fn from_draws(a: u64, b: u64) -> (r: Self)
        ensures
            r@ == a ^ b,
    {
        LocalRng(a ^ b)
    }

    /// Produce a new local rng seeded with one draw from the global rng.
    pub fn new(global: &GlobalRng) -> (r: Self) {
        Self::from_seed(global.random())
    }

    /// Produce a pseudo-random u64: the current state, which then advances
    /// by one step.
    pub fn random(&mut self) -> (r: u64)
        ensures
            r == old(self)@,
            final(self)@ == lcg(old(self)@),
    {
        let old_state = self.0;
        self.0 = next_rand(old_state);
        old_state
    }
}

} // verus!
