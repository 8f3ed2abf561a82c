//! Adventure graph library: a sparse, coordinate-indexed map of roads and
//! content nodes, a deterministic generator that lays every available level
//! out on a line, a text codec for the graph with a proved round-trip law,
//! and a loader that turns a decoded graph into scene-construction requests.

pub mod pos;
pub mod adventure;
pub mod codec;
pub mod generator;
pub mod loader;
pub mod paths;
