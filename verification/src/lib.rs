//! A small full-text search engine over a curated list of web origins: the
//! rules of a polite same-origin crawl, the extraction of text and links from
//! fetched pages, an inverted index over the extracted text, and a query
//! evaluator over that index.

pub mod codes;
pub mod config;
pub mod crawler;
pub mod database;
pub mod document;
pub mod index;
pub mod indexing;
pub mod links;
pub mod net;
pub mod query;
pub mod sorting;
pub mod text;
