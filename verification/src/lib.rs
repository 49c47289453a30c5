//! Reads and writes folder trees as text.

mod text;

pub use text::{chars_of, is_whitespace, spec_is_whitespace, string_of};
pub mod line;
mod entry;
pub mod parser;
pub mod shape;
pub mod render;
pub mod decode;
pub mod scan;
pub mod exclude;
pub mod spacing;
pub mod plan;
pub mod ui;
pub mod round_trip;
