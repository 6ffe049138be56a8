//! Discovery of mod descriptor files and extraction of their metadata.
//!
//! A descriptor is a small line-oriented `key = value` text. The parser in
//! [`descriptor`] extracts one value by key; [`mods`] turns a directory
//! listing into one record per descriptor file.

pub mod chars;
pub mod text;
pub mod descriptor;
pub mod mods;
