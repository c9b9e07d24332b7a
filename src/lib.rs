//! Neighbor search bookkeeping for point clouds with or without periodic
//! boundary conditions: the ordered point registry, the enumeration of
//! periodic images needed for a cutoff, the tagging of spatial-index hits
//! with node keys and images, and the distance-gated exclusion of the host.
pub mod error;
pub mod images;
pub mod neighbor;
pub mod registry;
