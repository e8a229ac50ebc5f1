//! Lexical normalization of `/`-separated paths: redundant separators and
//! `.` segments are dropped and `..` segments are resolved against the
//! segments before them, without consulting any file system.

pub mod laws;
pub mod path;

pub use path::{Component, components, normalize, reduce, render};
