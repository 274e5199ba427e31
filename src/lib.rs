//! Indexing and ranking of plain-text documents by term statistics.
pub mod corpus;
pub mod document;
pub mod ranking;
pub mod scoring;
