//! Annotates lines of text with metadata from an issue tracker: ticket
//! identifiers are extracted from each line, resolved against a local cache
//! and a remote tracker, and rendered back beside the original lines.

pub mod text;
pub mod extract;
pub mod models;
pub mod jsontext;
pub mod remote;
pub mod cache;
pub mod pipeline;
pub mod render;
