//! The generator has full period: from any state, the first 2^64 states it
//! passes through are pairwise distinct.
//!
//! After `k` steps from `s` the state is `s + geo(k) * offset(s)` modulo
//! 2^64, where `geo(k) = 1 + A + ... + A^(k-1)` and `offset(s) = (A - 1) * s + C`.
//! `offset(s)` is odd, and since `A` is 1 modulo 4 the largest power of two
//! dividing `geo(k)` is the one dividing `k`; so `k` steps return to `s`
//! only when 2^64 divides `k`.

use crate::frandom::{lcg, lcg_iter, lemma_lcg_iter_add, INCREMENT, MULTIPLIER};
use vstd::arithmetic::div_mod::{
    lemma_add_mod_noop, lemma_fundamental_div_mod, lemma_fundamental_div_mod_converse_mod,
    lemma_mul_mod_noop_left, lemma_small_mod,
};
use vstd::arithmetic::power2::{lemma2_to64, lemma_pow2_pos, lemma_pow2_unfold, pow2};
use vstd::prelude::*;

verus! {

/// `A^k`.
spec fn mpow(k: nat) -> int
    decreases k,
{
    if k == 0 {
        1
    } else {
        MULTIPLIER as int * mpow((k - 1) as nat)
    }
}

/// `1 + A + ... + A^(k-1)`.
spec fn geo(k: nat) -> int
    decreases k,
{
    if k == 0 {
        0
    } else {
        MULTIPLIER as int * geo((k - 1) as nat) + 1
    }
}

/// What one step adds to `s`, before reduction.
spec fn offset(s: u64) -> int {
    (MULTIPLIER as int - 1) * s as int + INCREMENT as int
}

proof fn lemma_mod_of(x: int, d: int, q: int, r: int)
    requires
        d > 0,
        0 <= r < d,
        x == q * d + r,
    ensures
        x % d == r,
{
    lemma_fundamental_div_mod_converse_mod(x, d, q, r);
}

proof fn lemma_double_mod(z: int, p: int)
    requires
        p > 0,
    ensures
        (2 * z) % (2 * p) == 2 * (z % p),
{
    lemma_fundamental_div_mod(z, p);
    let q = z / p;
    let r = z % p;
    assert(2 * z == q * (2 * p) + 2 * r) by (nonlinear_arith)
        requires
            z == p * q + r,
    ;
    lemma_mod_of(2 * z, 2 * p, q, 2 * r);
}

proof fn lemma_mpow_mod4(k: nat)
    ensures
        mpow(k) % 4 == 1,
    decreases k,
{
    if k == 0 {
    } else {
        let p = mpow((k - 1) as nat);
        lemma_mpow_mod4((k - 1) as nat);
        lemma_fundamental_div_mod(p, 4);
        let q = p / 4;
        let a = 715733388944485439int;
        assert(MULTIPLIER as int == 4 * a + 1);
        assert(mpow(k) == (4 * a * q + a + q) * 4 + 1) by (nonlinear_arith)
            requires
                mpow(k) == MULTIPLIER as int * p,
                MULTIPLIER as int == 4 * a + 1,
                p == 4 * q + 1,
        ;
        lemma_mod_of(mpow(k), 4, 4 * a * q + a + q, 1);
    }
}

proof fn lemma_geo_step(j: nat)
    ensures
        geo(j + 1) == geo(j) + mpow(j),
    decreases j,
{
    if j > 0 {
        let i = (j - 1) as nat;
        lemma_geo_step(i);
        assert(geo(j + 1) == MULTIPLIER as int * geo(j) + 1);
        assert(MULTIPLIER as int * geo(j) == MULTIPLIER as int * geo(i) + MULTIPLIER as int * mpow(
            i,
        )) by (nonlinear_arith)
            requires
                geo(j) == geo(i) + mpow(i),
        ;
    }
}

proof fn lemma_geo_add(j: nat, k: nat)
    ensures
        geo(j + k) == geo(j) + mpow(j) * geo(k),
    decreases k,
{
    if k > 0 {
        let i = (k - 1) as nat;
        lemma_geo_add(j, i);
        lemma_geo_step(j);
        let a = MULTIPLIER as int;
        assert(geo(j + k) == a * geo(j + i) + 1);
        assert(geo(k) == a * geo(i) + 1);
        assert(a * geo(j + i) + 1 == geo(j) + mpow(j) * (a * geo(i) + 1)) by (nonlinear_arith)
            requires
                geo(j + i) == geo(j) + mpow(j) * geo(i),
                geo(j + 1) == a * geo(j) + 1,
                geo(j + 1) == geo(j) + mpow(j),
        ;
    }
}

proof fn lemma_geo_parity(k: nat)
    ensures
        geo(k) % 2 == k % 2,
    decreases k,
{
    if k > 0 {
        let i = (k - 1) as nat;
        lemma_geo_parity(i);
        let g = geo(i);
        lemma_fundamental_div_mod(g, 2);
        lemma_fundamental_div_mod(i as int, 2);
        let gq = g / 2;
        let iq = i as int / 2;
        let a = 1431466777888970878int;
        assert(MULTIPLIER as int == 2 * a + 1);
        assert(geo(k) == 2 * (a * g + gq) + g % 2 + 1) by (nonlinear_arith)
            requires
                geo(k) == MULTIPLIER as int * g + 1,
                MULTIPLIER as int == 2 * a + 1,
                g == 2 * gq + g % 2,
        ;
        if i % 2 == 0 {
            lemma_mod_of(geo(k), 2, a * g + gq, 1);
            lemma_mod_of(k as int, 2, iq, 1);
        } else {
            lemma_mod_of(geo(k), 2, a * g + gq + 1, 0);
            lemma_mod_of(k as int, 2, iq + 1, 0);
        }
    }
}

proof fn lemma_odd_factor(m: nat, x: int, o: int)
    requires
        o % 2 == 1,
        (x * o) % (pow2(m) as int) == 0,
    ensures
        x % (pow2(m) as int) == 0,
    decreases m,
{
    lemma2_to64();
    if m == 0 {
        lemma_mod_of(x, 1, x, 0);
    } else {
        let p = pow2((m - 1) as nat) as int;
        lemma_pow2_unfold(m);
        lemma_pow2_pos((m - 1) as nat);
        lemma_fundamental_div_mod(x * o, 2 * p);
        let w = (x * o) / (2 * p);
        assert(x * o == (p * w) * 2) by (nonlinear_arith)
            requires
                x * o == (2 * p) * w + (x * o) % (2 * p),
                (x * o) % (2 * p) == 0,
        ;
        lemma_mod_of(x * o, 2, p * w, 0);
        lemma_fundamental_div_mod(x, 2);
        lemma_fundamental_div_mod(o, 2);
        let y = x / 2;
        if x % 2 == 1 {
            let v = o / 2;
            assert(x * o == 2 * (2 * y * v + y + v) + 1) by (nonlinear_arith)
                requires
                    x == 2 * y + 1,
                    o == 2 * v + 1,
            ;
            lemma_mod_of(x * o, 2, 2 * y * v + y + v, 1);
        }
        assert(x == 2 * y);
        assert(x * o == 2 * (y * o)) by (nonlinear_arith)
            requires
                x == 2 * y,
        ;
        lemma_double_mod(y * o, p);
        lemma_odd_factor((m - 1) as nat, y, o);
        lemma_double_mod(y, p);
    }
}

proof fn lemma_geo_valuation(k: nat, e: nat)
    requires
        k >= 1,
        geo(k) % (pow2(e) as int) == 0,
    ensures
        k as int % (pow2(e) as int) == 0,
    decreases e,
{
    lemma2_to64();
    if e == 0 {
        lemma_mod_of(k as int, 1, k as int, 0);
    } else {
        let p = pow2((e - 1) as nat) as int;
        lemma_pow2_unfold(e);
        lemma_pow2_pos((e - 1) as nat);
        lemma_fundamental_div_mod(geo(k), 2 * p);
        let w = geo(k) / (2 * p);
        assert(geo(k) == (p * w) * 2) by (nonlinear_arith)
            requires
                geo(k) == (2 * p) * w + geo(k) % (2 * p),
                geo(k) % (2 * p) == 0,
        ;
        lemma_mod_of(geo(k), 2, p * w, 0);
        lemma_geo_parity(k);
        lemma_fundamental_div_mod(k as int, 2);
        let h = (k / 2) as nat;
        assert(k == 2 * h);
        assert(h >= 1);
        lemma_geo_add(h, h);
        lemma_mpow_mod4(h);
        lemma_fundamental_div_mod(mpow(h), 4);
        let q = mpow(h) / 4;
        let o = 2 * q + 1;
        assert(geo(k) == 2 * (geo(h) * o)) by (nonlinear_arith)
            requires
                geo(h + h) == geo(h) + mpow(h) * geo(h),
                k == h + h,
                mpow(h) == 4 * q + 1,
                o == 2 * q + 1,
        ;
        lemma_double_mod(geo(h) * o, p);
        lemma_mod_of(o, 2, q, 1);
        lemma_odd_factor((e - 1) as nat, geo(h), o);
        lemma_geo_valuation(h, (e - 1) as nat);
        lemma_double_mod(h as int, p);
    }
}

proof fn lemma_closed_form(s: u64, k: nat)
    ensures
        lcg_iter(s, k) as int == (s as int + geo(k) * offset(s)) % 0x1_0000_0000_0000_0000int,
    decreases k,
{
    let m = 0x1_0000_0000_0000_0000int;
    if k == 0 {
        lemma_small_mod(s as nat, m as nat);
    } else {
        let i = (k - 1) as nat;
        lemma_closed_form(s, i);
        let a = MULTIPLIER as int;
        let c = INCREMENT as int;
        let y = s as int + geo(i) * offset(s);
        let x = lcg_iter(s, i) as int;
        assert(lcg_iter(s, k) == lcg(lcg_iter(s, i)));
        lemma_mul_mod_noop_left(y, a, m);
        lemma_add_mod_noop(x * a, c, m);
        lemma_add_mod_noop(y * a, c, m);
        lemma_small_mod(c as nat, m as nat);
        lemma_fundamental_div_mod(y * a, m);
        lemma_fundamental_div_mod(x * a, m);
        assert(y * a + c == s as int + geo(k) * offset(s)) by (nonlinear_arith)
            requires
                y == s as int + geo(i) * offset(s),
                geo(k) == a * geo(i) + 1,
                offset(s) == (a - 1) * s as int + c,
        ;
    }
}

/// From any state, the generator's first 2^64 states are pairwise distinct:
/// draws `i` and `j` of one sequence differ whenever `i < j < 2^64`. The
/// shared generator's compare-and-swap installs its states one after
/// another, so no value is handed out twice in that many calls.
pub proof fn lemma_full_period(s: u64, i: nat, j: nat)
    requires
        i < j < 0x1_0000_0000_0000_0000int,
    ensures
        lcg_iter(s, i) != lcg_iter(s, j),
{
    let m = 0x1_0000_0000_0000_0000int;
    let t = lcg_iter(s, i);
    let k = (j - i) as nat;
    lemma_lcg_iter_add(s, i, k);
    if lcg_iter(t, k) == t {
        lemma_closed_form(t, k);
        let x = geo(k) * offset(t);
        lemma_add_mod_noop(t as int, x, m);
        lemma_small_mod(t as nat, m as nat);
        lemma_fundamental_div_mod(x, m);
        let r = x % m;
        if r != 0 {
            if t as int + r < m {
                lemma_small_mod((t as int + r) as nat, m as nat);
            } else {
                lemma_mod_of(t as int + r, m, 1, t as int + r - m);
            }
        }
        assert(offset(t) == 2 * (1431466777888970878int * t as int + 1518500246) + 1);
        lemma_mod_of(offset(t), 2, 1431466777888970878int * t as int + 1518500246, 1);
        lemma2_to64();
        lemma_odd_factor(64, geo(k), offset(t));
        lemma_geo_valuation(k, 64);
        lemma_small_mod(k, m as nat);
    }
}

} // verus!
