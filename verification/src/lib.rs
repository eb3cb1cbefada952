//! Gathers the files of a tree into one document: candidate discovery,
//! admission filtering, version-aware ordering, text/binary classification
//! and rendering into an XML-like or a plain delimited document.

pub mod clean;
pub mod cleanup;
pub mod cli;
pub mod config;
pub mod discover;
pub mod encode;
pub mod encode_laws;
pub mod filter;
pub mod globs;
pub mod inputs;
pub mod metadata;
pub mod order;
pub mod output;
pub mod output_name;
pub mod output_text;
pub mod output_xml;
pub mod paths;
pub mod sort;
pub mod sort_laws;
pub mod strings;
pub mod text;
pub mod text_detect;
pub mod tree;
