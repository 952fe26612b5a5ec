//! Layout and drawing of control-flow graphs: the graph model and its
//! validation, the layered plan that placement and edge routing build on, the
//! diagram model with its checks and XML escaping, and the reading of
//! compiler pass data into diagrams.

pub mod first;
pub mod text;
pub mod graph;
pub mod err;
pub mod opts;
pub mod validate;
pub mod cycles;
pub mod srcs;
pub mod engine;
pub mod exits;
pub mod draw;
pub mod cli;
