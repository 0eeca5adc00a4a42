//! Verified core of a movie search service: weighted score accumulation
//! over inverted indexes, ranking, and the offset tables that locate
//! records in line-delimited data files.

pub mod idindexdata;
pub mod indexdata;
pub mod offsets;
pub mod query;
pub mod ranking;
pub mod results;
pub mod text;
