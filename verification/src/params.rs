//! Parameters of the LWR-based PRF for 128-bit semi-honest security.
use vstd::prelude::*;
use vstd::arithmetic::power2::{pow2, lemma2_to64};

verus! {

/// Element of Z_q.
pub type Zq = u16;

/// Element of Z_p.
pub type Zp = u8;

/// Element of Z_delta, a choice index for a 1-out-of-delta OT.
pub type Zdelta = u8;

/// Wider type for accumulating sums of Z_q elements.
pub type ZqAccum = u32;

/// Wider type for accumulating sums of Z_p elements.
pub type ZpAccum = u32;

/// LWR dimension: the key length and the number of columns of the hash matrix.
pub const N: usize = 482;

/// LWR modulus, 2^12.
pub const Q: Zq = 4096;

/// log2(Q).
pub const LOG_Q: u32 = 12;

/// Rounding modulus, 2^8.
pub const P: Zq = 256;

/// log2(P).
pub const LOG_P: u32 = 8;

/// Rounding factor q / p.
pub const DELTA_ZQ: Zq = 16;

/// Rounding factor, as a usize.
pub const DELTA: usize = 16;

/// log2(delta).
pub const LOG_DELTA: usize = 4;

/// The largest element of Z_p.
pub const ZP_MAX: Zp = 255;

/// Rows of the hash matrix.
pub const H_ROWS: usize = 16;

/// PRF output length in Z_p elements.
pub const OUTPUT_ELEMENTS: usize = 16;

/// Security parameter in bits.
pub const LAMBDA_BITS: usize = 128;

/// Security parameter in bytes.
pub const LAMBDA_BYTES: usize = 16;

/// `v` is `2^k` for some `k` below 16.
pub open spec fn is_power_of_two(v: Zq) -> bool {
    exists|k: nat| k < 16 && pow2(k) == v
}

/// `log2(v)` of a power of two `v`: the `k` with `2^k = v`.
pub fn log2(v: Zq) -> (r: u32)
    requires
        is_power_of_two(v),
    ensures
        r < 16,
        pow2(r as nat) == v,
{
    let ghost k0 = choose|k: nat| k < 16 && pow2(k) == v;
    let mut k: u16 = 0;
    loop
        invariant
            k <= k0,
            k0 < 16,
            pow2(k0) == v,
        decreases k0 - k,
    {
        proof {
            vstd::bits::lemma_u16_pow2_no_overflow(k as nat);
            vstd::bits::lemma_u16_shl_is_mul(1, k);
        }
        if (1u16 << k) == v {
            proof {
                if k < k0 {
                    vstd::arithmetic::power2::lemma_pow2_strictly_increases(k as nat, k0);
                }
            }
            return k as u32;
        }
        k = k + 1;
    }
}

/// The parameters fit together: `q` and `p` are the powers of two their
/// logarithms say, `delta = q / p` with `log2(delta) = log2(q) - log2(p)`,
/// every element of Z_p and of Z_delta fits its type, and an `N`-term sum of
/// Z_q or Z_p elements fits its accumulator.
pub proof fn lemma_params()
    ensures
        Q == pow2(LOG_Q as nat),
        P == pow2(LOG_P as nat),
        Q >= P,
        DELTA_ZQ == Q / P,
        DELTA == DELTA_ZQ,
        LOG_DELTA == LOG_Q - LOG_P,
        DELTA == pow2(LOG_DELTA as nat),
        P - 1 <= u8::MAX,
        ZP_MAX == P - 1,
        DELTA - 1 <= u8::MAX,
        N * (Q - 1) <= u32::MAX,
        N * (P - 1) <= u32::MAX,
        OUTPUT_ELEMENTS == H_ROWS,
        LAMBDA_BYTES == LAMBDA_BITS / 8,
{
    lemma2_to64();
}

} // verus!
