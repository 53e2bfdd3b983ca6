//! Stochastic geometry for agent uncertainty: the discrete, integer-valued core.
//!
//! The library proves the combinatorial algorithms that sit under the
//! continuous models: connected-component labelling of occupancy grids
//! (percolation and Minkowski functionals) and the incremental bookkeeping
//! of the Bowyer-Watson Delaunay triangulation.
pub mod grid;
pub mod percolation;
pub mod minkowski;
pub mod delaunay;
pub mod voronoi;

pub use percolation::{PercolationDetector, PercolationDirection, GridSummary};
pub use delaunay::Triangle;
