//! In-memory podcast catalog with tag-filtered queries, a cached
//! full-text-search orchestration layer, and a syndication feed model.

pub mod environment;
pub mod fdr_cache;
pub mod feed;
pub mod http_paths;
pub mod mock;
pub mod podcast;
pub mod search_backend;
pub mod search_cache;
pub mod search_filter;
pub mod search_result;
pub mod strutil;
pub mod tag_counts;
