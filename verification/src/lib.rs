//! An in-memory, spatially partitioned index for road-network extracts.
//!
//! Node records are bucketed into fixed-size geographic cells, way records are
//! classified by road type, and the links between ways and the nodes they
//! reference are kept consistent as elements arrive in any order. The whole
//! structure can be saved to and restored from a single byte blob.

pub mod codec;
pub mod coords;
pub mod road_class;
pub mod grid;
pub mod speed;
pub mod way;

pub use coords::cell_coordinate;
pub use coords::RESOLUTION;
pub use codec::SnapshotError;
pub use grid::Cell;
pub use grid::Grid;
pub use road_class::Highway;
pub use road_class::WayTag;
pub use way::Element;
pub use way::Node;
pub use way::NodeData;
pub use way::Way;
pub use way::WayData;
