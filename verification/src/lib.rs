//! A resumable single-site wiki crawler core: URL canonicalisation, the
//! frontier of discovered pages, and the decisions of the crawl loop.

pub mod bindings;
pub mod canonical;
pub mod engine;
pub mod frontier;
pub mod marks;
pub mod progress;
pub mod stable;
pub mod text;
