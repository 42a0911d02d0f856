//! Rounding from Z_q to Z_p.
use vstd::prelude::*;
use vstd::arithmetic::div_mod::{
    lemma_add_mod_noop, lemma_fundamental_div_mod_converse, lemma_mod_breakdown,
};
use crate::modular::reduce_p;
use crate::params::{Zp, ZpAccum, Zq, DELTA_ZQ, P, Q};

verus! {

/// The nearest integer to `v / DELTA`, a tie rounding down.
pub open spec fn nearest(v: int) -> int {
    if v % 16 > 8 {
        v / 16 + 1
    } else {
        v / 16
    }
}

/// `round_{q,p}(v)`: the nearest integer to `v * p / q`, ties down, taken mod p.
pub open spec fn round_qp(v: int) -> int {
    nearest(v) % (P as int)
}

/// Round a Z_q element to Z_p by computing `(p/q) * v`, rounded to the
/// nearest integer. On a tie, we round down.
pub fn round_zq_to_zp(v: Zq) -> (r: Zp)
    requires
        v < Q,
    ensures
        r == round_qp(v as int),
{
    let quotient = v / DELTA_ZQ;
    let remainder = v % DELTA_ZQ;
    if remainder > DELTA_ZQ / 2 {
        reduce_p((quotient + 1) as ZpAccum)
    } else {
        quotient as Zp
    }
}

/// Adding `k` whole multiples of `DELTA` before the reduction mod q shifts
/// the rounded value by `k` mod p.
pub proof fn lemma_round_shift(v: int, k: int)
    requires
        0 <= v,
        0 <= k,
    ensures
        round_qp((v + 16 * k) % (Q as int)) == (round_qp(v) + k) % (P as int),
{
    let x = v + 16 * k;
    let w = x % 4096;
    lemma_mod_breakdown(x, 16, 256);
    assert(16 * ((x / 16) % 256) + x % 16 == w);
    lemma_fundamental_div_mod_converse(w, 16, (x / 16) % 256, x % 16);
    assert(w / 16 == (x / 16) % 256);
    assert(w % 16 == x % 16);
    assert(x / 16 == v / 16 + k);
    assert(x % 16 == v % 16);
    let up: int = if v % 16 > 8 { 1 } else { 0 };
    assert(nearest(w) == (x / 16) % 256 + up);
    lemma_add_mod_noop(x / 16, up, 256);
    assert((x / 16) % 256 % 256 == (x / 16) % 256);
    assert(nearest(w) % 256 == (x / 16 + up) % 256);
    assert(x / 16 + up == nearest(v) + k);
    lemma_add_mod_noop(nearest(v), k, 256);
    assert(k % 256 % 256 == k % 256);
    lemma_add_mod_noop(nearest(v) % 256, k, 256);
}

} // verus!
