//! The interface between the protocol and a proof system.
//!
//! A proof is about a [`Statement`]: public values both parties hold, plus a
//! witness only the prover holds. The proof systems themselves run outside
//! this library.
use vstd::prelude::*;

verus! {

/// Public values that a proof speaks of, with the kind of witness that
/// satisfies them.
pub trait Statement {
    type Witness;
}

} // verus!
