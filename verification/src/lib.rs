//! A focused web crawler core: a prioritized, deduplicating link frontier,
//! a weighted keyword scorer, anchor extraction from parsed HTML trees,
//! standards-based relative URL resolution, a retrying download schedule,
//! and the per-iteration decisions of the crawl workers.

pub mod analyser;
pub mod downloader;
pub mod html;
pub mod queue;
pub mod resolver;
pub mod score;
pub mod text;
pub mod value;
pub mod worker;

pub use value::HtmlUrl;
pub use value::ScoredValue;
