//! Minimum-jump route finding through a large catalog of star systems.
//!
//! A ship jumps between systems within a bounded Euclidean distance; neutron
//! stars boost the range of the next outgoing jump by a factor of four.  The
//! crate provides the two A* routers (`a_star` over arbitrary systems,
//! `neutron_a_star` over the neutron subgraph), the dominance-pruned neutron
//! neighbor-graph builder, and the indexed record-file format that stores the
//! catalog and the neutron adjacency on disk.
//!
//! Positions are integer Cartesian coordinates; distance comparisons are done
//! exactly on squared distances, and the distance component of a route score
//! uses the integer ceiling of the Euclidean distance.

pub mod geometry;
pub mod score;
pub mod system;
pub mod route;
pub mod neutron;
pub mod builder;
pub mod codec;
pub mod indexed;

pub use geometry::{distance_v, sq_dist, V3};
pub use score::HScore;
pub use system::{distance, sort_star_systems, NeutronStarSystem, StarSystem};
pub use route::{a_star, neighbors};
pub use neutron::{neutron_a_star, neutron_search};
pub use builder::{make_neutron_entry, make_neutron_star_systems};
pub use indexed::{indexed_file_bytes, IndexedFileMap};
