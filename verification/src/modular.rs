//! Modular arithmetic in Z_q, Z_p and Z_delta.
use vstd::prelude::*;
use crate::params::{Zdelta, Zp, ZpAccum, Zq, ZqAccum, DELTA, DELTA_ZQ, P, Q};

verus! {

/// Reduce an accumulated sum of Z_q elements back into Z_q.
pub fn reduce_q(x: ZqAccum) -> (r: Zq)
    ensures
        r == (x as int) % (Q as int),
{
    (x % (Q as u32)) as Zq
}

/// Reduce an accumulated sum of Z_p elements back into Z_p.
pub fn reduce_p(x: ZpAccum) -> (r: Zp)
    ensures
        r == (x as int) % (P as int),
{
    (x % (P as u32)) as Zp
}

/// Reduce a Z_q element into [0, DELTA).
pub fn reduce_delta(x: Zq) -> (r: Zdelta)
    ensures
        r == (x as int) % (DELTA as int),
{
    (x % DELTA_ZQ) as Zdelta
}

/// `x - y mod Q`. Both operands must already be reduced mod Q.
pub fn sub_q(x: Zq, y: Zq) -> (r: Zq)
    requires
        x < Q,
        y < Q,
    ensures
        r == (x - y) % (Q as int),
{
    reduce_q(x as ZqAccum + Q as ZqAccum - y as ZqAccum)
}

/// `x + y mod P`. Both operands must already be reduced mod P.
pub fn add_p(x: Zp, y: Zp) -> (r: Zp)
    requires
        x < P,
        y < P,
    ensures
        r == (x + y) % (P as int),
{
    reduce_p(x as ZpAccum + y as ZpAccum)
}

/// `x - y mod P`. Both operands must already be reduced mod P.
pub fn sub_p(x: Zp, y: Zp) -> (r: Zp)
    requires
        x < P,
        y < P,
    ensures
        r == (x - y) % (P as int),
{
    reduce_p(x as ZpAccum + P as ZpAccum - y as ZpAccum)
}

/// `x - y mod DELTA`. Both operands must already be in [0, DELTA).
pub fn sub_delta(x: Zdelta, y: Zdelta) -> (r: Zdelta)
    requires
        x < DELTA,
        y < DELTA,
    ensures
        r == (x - y) % (DELTA as int),
{
    ((x as usize + DELTA - y as usize) % DELTA) as Zdelta
}

} // verus!
