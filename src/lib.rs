//! Parallel proper-noun extraction and frequency ranking over a document list.

pub mod error;
pub mod text;
pub mod partition;
pub mod analyzer;
pub mod extract;
pub mod merge;
pub mod frequency;
pub mod rank;
pub mod dataset;
