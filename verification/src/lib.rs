//! Shell glob-like filename matching, compiled to regular expressions.
//!
//! The entry point is [`glob::glob_to_regex`], which scans a glob pattern
//! once, left to right, and builds an anchored regular expression that
//! matches exactly the texts the pattern describes.  The wildcards `?` and
//! `*`, as well as `[...]` character classes, never match the path
//! separator `/`.

pub mod alternate;
pub mod classes;
pub mod error;
pub mod escape;
pub mod glob;
pub mod sorting;
pub mod try_flatten;

pub use glob::glob_to_regex;
