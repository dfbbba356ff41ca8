//! Derives a drawable graph from a parsed logic description: the nodes that have
//! a place on the map and the connections between them, and finds where in the
//! areas text a node or a connection was declared.
//!
//! - [`logic`]: the node table that the graph is derived from.
//! - [`edges`]: which connections of a table are drawn, and how opposite
//!   connections are joined into one.
//! - [`graph`]: the graph itself and its assembly.
//! - [`search`]: the patterns that the areas text is searched with.
//! - [`source`]: the locations of declarations in the areas text.
//! - [`headers`]: the annotations of a header.

pub mod edges;
pub mod graph;
pub mod headers;
pub mod logic;
pub mod search;
pub mod source;
