//! Diagram content drawn for each graph node, and the checks made on it
//! before it is written as SVG.

pub mod err;
pub mod model;
pub mod svg;
