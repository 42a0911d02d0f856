use vstd::prelude::*;

pub mod blake;
pub mod commitment;
pub mod compress;
pub mod delta_ot;
pub mod eval;
pub mod hash;
pub mod key;
pub mod modular;
pub mod online;
pub mod packing;
pub mod params;
pub mod prf;
pub mod preprocessing;
pub mod psi;
pub mod response;
pub mod response_air;
pub mod server;
pub mod set_file;
pub mod statement;
pub mod round;

verus! {
}
