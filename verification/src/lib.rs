//! Point-in-region lookup over a one-degree grid: the binary artifact codec,
//! the grid index and the query engine, with their proofs.

pub mod admin;
pub mod artifact;
pub mod cache;
pub mod compact;
pub mod degrees;
pub mod feature;
pub mod geometry;
pub mod grid;
pub mod ids;
pub mod item;
pub mod ned;
pub mod osm;
pub mod properties;
pub mod query;
pub mod record;
pub mod response;
pub mod text;
pub mod wire;
