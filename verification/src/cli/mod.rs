//! The command line around the layout: its arguments, the Ion data it
//! reads, and how that data becomes a diagram.

pub mod args;
pub mod data;
pub mod draw;
pub mod err;
pub mod tables;
