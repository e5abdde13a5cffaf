//! Reconciles a file manager's selection manifest with a human-edited catalog file: both are
//! read into categories of entries, merged without loss, ordered, and written back with a
//! footer that records the entry count, so that a run which adds nothing changes nothing.

pub mod args;
pub mod catalog;
pub mod error;
pub mod laws;
pub mod manifest;
pub mod merge;
pub mod order;
pub mod output;
pub mod render;
pub mod roundtrip;
pub mod strategy;
pub mod text;

pub use args::{Args, Mode};
pub use catalog::{Category, Contents};
pub use error::Error;
pub use output::Output;
pub use render::{display_text, should_write};
pub use strategy::{sort, SortStrategy};
pub use text::trim_left;
