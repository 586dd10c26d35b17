//! Turns an encyclopedia export into a directed article-link graph: index
//! decoding and range partitioning, page scanning, link and redirect
//! extraction from markup, record formats, redirect closure and graph
//! statistics.

pub mod analyze;
pub mod common;
pub mod error;
pub mod network;
pub mod network_generator;
pub mod records;
pub mod resolve;
pub mod statistics;
pub mod text;
pub mod title_map;
pub mod wiki_text;
pub mod wikitext;
