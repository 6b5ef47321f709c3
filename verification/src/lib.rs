//! Structural differences between two JSON-like trees, and their rendering
//! as an indented, optionally styled report.
//!
//! `types` holds the trees and the change tree together with their
//! mathematical models, `tree` the operations on trees, `text` the string
//! helpers, `diff` the engine and its configuration, `pretty` the
//! renderer, and `theory` what is proved of the engine as a whole.

pub mod diff;
pub mod pretty;
pub mod text;
pub mod theory;
pub mod tree;
pub mod types;

pub use crate::diff::{Diff, DiffLogger};
pub use crate::pretty::{Format, PrettyLog, Style};
pub use crate::types::Value;
