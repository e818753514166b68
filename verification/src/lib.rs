//! A small verified wiki toolkit: a line-oriented text diff engine built on a
//! longest-common-subsequence alignment with a similarity-based modification
//! pass, plus the text helpers around it (title extraction, wiki-link
//! rewriting) and an in-memory page store.

pub mod diff;
pub mod diff_laws;
pub mod link_parser;
pub mod page_store;
pub mod text;
pub mod utils;
