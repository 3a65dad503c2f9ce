//! A simulation of the BB84 quantum key distribution protocol.
//!
//! Every random draw goes through [`entropy`]; everything that follows a draw
//! is verified against the contracts stated here.
use vstd::prelude::*;

pub mod encoding;
mod entropy;
pub mod protocol;

pub use encoding::{basis_to_string, bits_to_hex};
pub use protocol::{
    estimate_errors, intercept_qubit, sample_indices, BB84Protocol, Basis, ErrorEstimate, InterceptRate,
    KeyGenerationResult, Qubit, RATE_SCALE,
};

verus! {

} // verus!
