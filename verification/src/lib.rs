//! Core of a file-system based router: derives canonical route paths from
//! page files, scores them by specificity, compiles each into a matching
//! pattern, and resolves incoming request targets against the resulting
//! manifest.

pub mod manifest;
pub mod matcher;
pub mod pattern;
pub mod resolve;
pub mod score;
pub mod segments;
pub mod text;
pub mod types;
