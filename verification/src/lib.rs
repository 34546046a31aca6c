//! A two-way codec between box-drawing text and a graph of line segments.
//!
//! [`Graph::from_str`] scans a block of text, glyph by glyph, and resolves
//! the box-drawing characters in it (and their ASCII stand-ins `-`, `|`, `=`,
//! `/`, `\` and `X`) into anchors and straight segments. [`Graph::to_string`]
//! draws such a graph back onto a character grid. [`clean_string`] reduces any
//! text to the part of it that the pair carries through unchanged.
//!
//! The modules, leaves first:
//!
//! - [`position`] and [`stroke`]: positions, anchors, strokes and labels;
//! - [`glyph`]: what each glyph stands for;
//! - [`graph`]: the graph, kept in a `petgraph` map;
//! - [`scan`]: the scan from text to graph;
//! - [`render`]: the drawing from graph to text;
//! - [`clean`]: the cleaning of a text;
//! - [`page`], [`faithful`], [`runs`], [`single`] and [`drawing`]: why the
//!   scan is true to its text and keeps each run whole on one segment, and
//!   what a graph that is true to a text draws;
//! - [`laws`]: what holds of scanning, drawing and cleaning together.
pub mod clean;
pub mod drawing;
pub mod faithful;
pub mod glyph;
pub mod graph;
pub mod laws;
pub mod page;
pub mod position;
pub mod stroke;
pub mod render;
pub mod runs;
pub mod scan;
pub mod single;

pub use clean::clean_string;
pub use position::{LineColumn, Node, Region};
pub use stroke::{Brush, Edge};
pub use graph::{Graph, GraphView};
pub use scan::{Error, Fate, Met, Port, Scan, State, Tx};
