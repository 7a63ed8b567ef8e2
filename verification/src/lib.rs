//! A small static-site generator, verified with Verus.
//!
//! The library turns a modelled source tree (plain file and directory names,
//! directive text, an optional header fragment) into the exact strings and
//! copy/write steps a generation run performs. All path and text handling is
//! done on `String` values viewed as `Seq<char>`; the thin binary around the
//! library performs the actual filesystem reads and writes.

pub mod directives;
pub mod render;
pub mod site;
pub mod strutil;
