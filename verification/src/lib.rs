//! Ingestion core for a crossword puzzle catalog: classifies puzzles by
//! publisher and publication date from their titles, extracts answer words
//! from letter grids, drives a paginated fetch loop, and models the
//! normalized store with its uniqueness and idempotence guarantees.

pub mod date;
pub mod ingest;
pub mod puzzle;
pub mod schema;
pub mod store;
pub mod title_date;
