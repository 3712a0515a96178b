//! Docco: a verified documentation extractor core.
//!
//! The library scans source text for delimited documentation blocks,
//! extracts the markdown header and body lines of each block, and
//! aggregates the sections of many files into one ordered document.

pub mod docmap;
pub mod extractors;
pub mod models;
pub mod parsers;
pub mod scan;
