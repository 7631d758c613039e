//! Tiled wave function collapse: a constraint solver that fills a rectangular grid with
//! oriented square tiles such that every pair of orthogonal neighbours is a declared adjacency.
pub mod census;
pub mod config;
pub mod entropy;
pub mod grid;
pub mod model;
pub mod propagator;
pub mod random;
pub mod rules;
pub mod select;
pub mod symmetry;
pub mod text;
pub mod tile;

pub use config::BuildError;
pub use config::Config;
pub use config::Neighbor;
pub use tile::Tile;
