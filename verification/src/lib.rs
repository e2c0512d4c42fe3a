//! File tools: a self-describing Base64 text format for files (name, MD5,
//! Base64 body), human-readable byte sizes, and the naming rules used to split
//! a file into numbered parts and merge them back.

pub mod batch;
pub mod codec;
pub mod envelope;
pub mod parts;
pub mod size_label;
pub mod text;
