//! Core logic of a transit-network editor: validation of a network,
//! detection of circular lines, graph distances, preprocessing, label
//! ordering and the integer parts of the schematic layout pipeline.
pub mod types;
pub mod ident;
pub mod annealing;
pub mod circle;
pub mod builder;
pub mod initial;
pub mod operators;
pub mod render;
pub mod labels;
pub mod cycles;
pub mod preprocess;
