//! Document chunking for retrieval pipelines: bounded-size splitting of text,
//! markdown and unified diffs, with the chunking rules stated as contracts.

pub mod diff;
pub mod document;
pub mod embedding;
pub mod globs;
pub mod loader;
pub mod markdown;
pub mod prompt;
pub mod text;
