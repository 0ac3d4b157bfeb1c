//! Document retrieval over path-like records: an inverted index with
//! per-term and per-document statistics, a coverage query and the exact
//! inputs of Okapi BM25 ranking.
pub mod terms;
pub mod postings;
pub mod index;
pub mod bm25;
pub mod laws;
