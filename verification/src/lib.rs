use vstd::prelude::*;

pub mod deletion;
pub mod engine;
pub mod fingerprint;
pub mod paths;
pub mod scan;
pub mod store;

verus! {

/// Errors surfaced by the similarity engine.
#[derive(Clone, Copy, Debug, PartialEq, Eq, Structural)]
pub enum EngineError {
    /// Two fingerprints of different bit lengths were compared.
    IncompatibleFingerprints,
    /// A search was attempted while no reference fingerprint is registered.
    NoReferenceImages,
}

} // verus!
