//! A code-search engine core: query rewriting, candidate discovery,
//! hit scoring and deduplication, retrieval metrics, snippet formatting,
//! and a persistent hint store, all with verified contracts.
//!
//! The engine composes external search tools (fd, ripgrep, ripgrep-all,
//! ast-grep). Everything those tools decide is taken as input here; the
//! logic that plans their invocations and interprets their results is
//! verified. Process spawning and file I/O live in the accompanying
//! application crate.

pub mod bench;
pub mod engine;
pub mod fixture;
pub mod hints;
pub mod jsonval;
pub mod language;
pub mod paths;
pub mod request;
pub mod rewrite;
pub mod score;
pub mod snippet;
pub mod state_codec;
pub mod stats;
pub mod text;
pub mod tools;
