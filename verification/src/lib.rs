//! Reranking of web search results for technical queries.
//!
//! A query such as "React 19 documentation" names a project and, often, a
//! version of it.  [`technical::rerank_technical`] reads both out of the query
//! and moves the results that speak of that version, and those published by
//! the project itself, to the front.

pub mod authority;
pub mod client;
pub mod evidence;
pub mod intent;
pub mod laws;
pub mod ranking;
pub mod technical;
pub mod text;
pub mod version;
pub mod weburl;
