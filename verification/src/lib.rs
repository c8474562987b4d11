//! Compact representation and traversal of the k-skeleton of an
//! N-dimensional hypercube: the lattice points lying on faces of
//! dimension at most `max_dim`, addressed without paying the storage
//! cost of the full N-volume.

pub mod cache;
pub mod combinatorics;
pub mod expand;
pub mod extent;
pub mod meta;
pub mod neighbors;
pub mod surface;

pub use cache::AdjacencyCache;
pub use combinatorics::n_choose_m;
pub use meta::HyperSurfaceMeta;
pub use neighbors::Neighbors;
pub use surface::HyperSurface;

pub use extent::Extent;
pub use extent::HyperCoord;
pub use extent::count_var_dims;
pub use extent::extent_neighbor;
pub use extent::set_hypercoord_inbound_vals;
