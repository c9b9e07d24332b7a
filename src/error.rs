//! The failures of lookups in the point registry.
use vstd::prelude::*;

verus! {

/// Why a lookup in the point registry failed.
#[derive(Clone, Copy, Debug, PartialEq, Eq, Structural)]
pub enum NeighborError {
    /// The node key was never registered.
    UnknownKey,
    /// A dense position lies past the end of the registry.
    IndexOutOfRange,
}

} // verus!
