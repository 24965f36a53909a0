//! Line indexing and pattern resolution over the bytes of large log files.

pub mod range;
pub mod searcher;
pub mod lines;
pub mod regex_matcher;
pub mod tree;
pub mod layout;
