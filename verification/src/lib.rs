//! Line-oriented substring search over text.
//!
//! A text is modelled by the sequence of its characters. The module `model`
//! says what the lines of a text are and when one text occurs in another,
//! `encoding` how both show in the UTF-8 bytes that the scan runs over;
//! `lines` and `matcher` hold the executable scan, and `laws` the facts that
//! follow from the contracts.

pub mod model;
pub mod encoding;
pub mod lines;
pub mod fold;
pub mod matcher;
pub mod laws;
pub mod config;

pub use crate::config::Config;
pub use crate::matcher::{search, search_case_insensitive};
