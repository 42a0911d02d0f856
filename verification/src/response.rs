//! Constraint (R): every entry of the server's response is computed
//! correctly.
//!
//! ```text
//! y_j = round((a_sigma_sum - j) mod q) + pads[(j - b_bar_prime) mod DELTA]   mod p
//! ```
//!
//! `y` and `b_bar_prime` are public; `a_sigma_sum` and the pads are the
//! witness.
use vstd::prelude::*;
use crate::eval::{respond, response_spec};
use crate::params::{Zdelta, Zp, Zq, DELTA, Q};
use crate::statement::Statement;

verus! {

/// The public side of (R).
#[derive(Clone, Copy, Debug)]
pub struct ResponseStatement {
    /// `y_0 .. y_{DELTA-1}`.
    pub y: [Zp; DELTA],
    /// `b_bar_prime`, in `0 .. DELTA-1`.
    pub b_bar_prime: Zdelta,
}

/// The server's secret side of (R).
#[derive(Clone)]
pub struct ResponseWitness {
    /// `a_sigma_sum`: terms summed over all coordinates, mod `q`.
    pub a_sigma_sum: Zq,
    /// `r'_0 .. r'_{DELTA-1}`.
    pub pads: [Zp; DELTA],
}

impl ResponseStatement {
    /// The statement an honest server makes for `witness` and `b_bar_prime`.
    pub fn for_witness(witness: &ResponseWitness, b_bar_prime: Zdelta) -> (r: Self)
        requires
            witness.a_sigma_sum < Q,
            b_bar_prime < DELTA,
        ensures
            r.y@ == response_spec(witness.a_sigma_sum as int, witness.pads@, b_bar_prime as int),
            r.b_bar_prime == b_bar_prime,
    {
        ResponseStatement {
            y: respond(witness.a_sigma_sum, &witness.pads, b_bar_prime),
            b_bar_prime,
        }
    }

    /// `witness` satisfies this statement: `b_bar_prime` is in range,
    /// `a_sigma_sum` is reduced mod `q`, and the response is the one the
    /// witness gives.
    pub fn holds_for(&self, witness: &ResponseWitness) -> (r: bool)
        ensures
            r == (self.b_bar_prime < DELTA && witness.a_sigma_sum < Q && self.y@ == response_spec(
                witness.a_sigma_sum as int,
                witness.pads@,
                self.b_bar_prime as int,
            )),
    {
        if !((self.b_bar_prime as usize) < DELTA && witness.a_sigma_sum < Q) {
            return false;
        }
        let honest = Self::for_witness(witness, self.b_bar_prime);
        let mut j: usize = 0;
        while j < DELTA
            invariant
                j <= DELTA,
                honest.y@ == response_spec(
                    witness.a_sigma_sum as int,
                    witness.pads@,
                    self.b_bar_prime as int,
                ),
                forall|k: int| 0 <= k < j ==> honest.y@[k] == self.y@[k],
            decreases DELTA - j,
        {
            if honest.y[j] != self.y[j] {
                assert(honest.y@[j as int] != self.y@[j as int]);
                return false;
            }
            j = j + 1;
        }
        assert(honest.y@ =~= self.y@);
        true
    }
}

impl Statement for ResponseStatement {
    type Witness = ResponseWitness;
}

} // verus!
