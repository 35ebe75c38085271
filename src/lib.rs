//! Table-of-contents generation for markdown documents.
//!
//! The library scans markdown lines for ATX headings, renders them as a
//! nested list of links, and splices that list into a document's bytes in
//! place, leaving every other byte untouched.

pub mod anchor;
pub mod toc;
pub mod splice;
pub mod args;
pub mod git;
pub mod laws;
