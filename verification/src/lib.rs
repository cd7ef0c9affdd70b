//! Keeps issue trackers in sync with structured `TODO` / `BUG` / `DEPR`
//! comments found in source code.

pub mod text;
pub mod parse;
pub mod diff;
pub mod hash;
pub mod scan;
pub mod utils;
pub mod github;
pub mod webhook;
pub mod store;
pub mod config;
pub mod sync;
