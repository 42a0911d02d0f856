//! The equations of the paper's BlindEval: the server's response.
use vstd::prelude::*;
use crate::modular::{add_p, sub_delta, sub_q};
use crate::params::{Zdelta, Zp, Zq, DELTA, Q};
use crate::round::{round_qp, round_zq_to_zp};

verus! {

/// `round((a_sigma_sum - j) mod q)`.
pub open spec fn rounded_spec(a_sigma_sum: int, j: int) -> int {
    round_qp((a_sigma_sum - j) % (Q as int))
}

/// `(j - b_bar_prime) mod DELTA`, the pad entry `j` reads.
pub open spec fn pad_index(j: int, b_bar_prime: int) -> int {
    (j - b_bar_prime) % (DELTA as int)
}

/// Entry `j` of the response:
/// `round((a_sigma_sum - j) mod q) + pads[(j - b_bar_prime) mod DELTA]  mod p`.
pub open spec fn response_entry(a_sigma_sum: int, pads: Seq<Zp>, b_bar_prime: int, j: int) -> Zp {
    ((rounded_spec(a_sigma_sum, j) + pads[pad_index(j, b_bar_prime)]) % 256) as Zp
}

/// The whole response, `y_0 .. y_{DELTA-1}`.
pub open spec fn response_spec(a_sigma_sum: int, pads: Seq<Zp>, b_bar_prime: int) -> Seq<Zp> {
    Seq::new(DELTA as nat, |j: int| response_entry(a_sigma_sum, pads, b_bar_prime, j))
}

/// `round((a_sigma_sum - j) mod q)`, the rounded part of entry `j`.
pub fn rounded(a_sigma_sum: Zq, j: usize) -> (r: Zp)
    requires
        a_sigma_sum < Q,
        j < Q,
    ensures
        r == rounded_spec(a_sigma_sum as int, j as int),
{
    round_zq_to_zp(sub_q(a_sigma_sum, j as Zq))
}

/// `pads[(j - b_bar_prime) mod DELTA]`.
pub fn pad(pads: &[Zp; DELTA], j: usize, b_bar_prime: Zdelta) -> (r: Zp)
    requires
        j < DELTA,
        b_bar_prime < DELTA,
    ensures
        r == pads@[pad_index(j as int, b_bar_prime as int)],
{
    pads[sub_delta(j as Zdelta, b_bar_prime) as usize]
}

/// The server's response `y_0 .. y_{DELTA-1}`:
///
/// ```text
/// y_j = round((a_sigma_sum - j) mod q) + pads[(j - b_bar_prime) mod DELTA]   mod p
/// ```
///
/// `a_sigma_sum` must be reduced mod q and `b_bar_prime` lie in `0 .. DELTA`.
pub fn respond(a_sigma_sum: Zq, pads: &[Zp; DELTA], b_bar_prime: Zdelta) -> (r: [Zp; DELTA])
    requires
        a_sigma_sum < Q,
        b_bar_prime < DELTA,
    ensures
        r@ == response_spec(a_sigma_sum as int, pads@, b_bar_prime as int),
{
    let mut y = [0u8; 16];
    let mut j: usize = 0;
    while j < DELTA
        invariant
            j <= DELTA,
            a_sigma_sum < Q,
            b_bar_prime < DELTA,
            y@.len() == DELTA,
            forall|k: int| 0 <= k < j ==> #[trigger] y@[k] == response_entry(
                a_sigma_sum as int,
                pads@,
                b_bar_prime as int,
                k,
            ),
        decreases DELTA - j,
    {
        let v = add_p(rounded(a_sigma_sum, j), pad(pads, j, b_bar_prime));
        y[j] = v;
        j = j + 1;
    }
    assert(y@ =~= response_spec(a_sigma_sum as int, pads@, b_bar_prime as int));
    y
}

} // verus!
