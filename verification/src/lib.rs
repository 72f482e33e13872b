//! Requests for Discussion: documents with YAML front matter, their
//! lifecycle, search and validation, and W3C Web Annotations anchored to
//! their text, with what is kept on each RFD's git ref.

pub mod annotation;
pub mod config;
pub mod diagnostic;
pub mod fields;
pub mod import;
pub mod number;
pub mod refs;
pub mod render;
pub mod rfd;
pub mod search;
pub mod selector;
pub mod source_map;
pub mod state;
pub mod text;
pub mod validate;
pub mod workflow;
