//! jevr (Jev Retrieval): concept-to-files retrieval, verified core.
//!
//! The library holds the deterministic logic of the retrieval pipeline: the
//! code-aware tokenizer and BM25 statistics, keyword variants, candidate
//! union, line windowing and request batching, the Jev question builders,
//! and the pure parts of the client and output layers.

pub mod bm25;
pub mod candidates;
pub mod expansion;
pub mod jev;
pub mod output;
pub mod pipeline;
pub mod text;
pub mod verify;
pub mod walk;
pub mod windows;
