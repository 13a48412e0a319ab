//! Index and permutation core of a Metropolis sampler for the travelling
//! salesman problem: the packed symmetric distance table, tours over it with
//! their 2-opt moves, and the proposal of moves from a random stream.
//!
//! Distances are carried as an opaque copyable value `T`; the arithmetic on
//! them is left to the caller, which picks the number type.

pub mod utils;
pub mod town;
pub mod tour;
pub mod sampler;

pub use town::{DistType, TownDistance, UnsupportedDist};
pub use tour::{MoveDists, Tour, TourError};
pub use utils::order_ab;
