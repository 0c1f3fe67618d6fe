//! A read-only sequence graph stored as flat, offset-indexed arrays in one
//! contiguous byte image.
//!
//! A [`builder::Builder`] collects nodes, edges and paths and writes the
//! image. [`loader::load`] checks an image and hands out a
//! [`view::GraphView`], which borrows the image and answers every query
//! straight from its bytes.
//!
//! The layers, from the bytes up:
//!
//! - [`layout`]: the header and the place of the eight segments in an image;
//! - [`store`]: the segments as borrowed, typed arrays;
//! - [`index`] and [`record`]: the rules of an offset index, and how edges
//!   and steps are packed into words;
//! - [`view`]: nodes, neighbours and paths read from a store;
//! - [`image`]: which image stands for a graph, and the proof that loading
//!   it gives the graph back;
//! - [`summary`] and [`hashed`]: the name and step count of each path, of a
//!   graph view and of a hash-based graph.

pub mod builder;
pub mod error;
pub mod graph;
pub mod hashed;
pub mod image;
pub mod index;
pub mod layout;
pub mod loader;
pub mod record;
pub mod scan;
pub mod store;
pub mod summary;
pub mod text;
pub mod view;
pub mod words;
