//! Mirror of a single wiki-style site: crawl logic, link and resource
//! extraction, URL-suffix-to-path mapping, and frontier bookkeeping.

pub mod crawl;
pub mod extract;
pub mod fetch;
pub mod frontier;
pub mod mapper;
pub mod text;
