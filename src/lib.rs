//! Prefix search over file names: terms are tried longest first, each file
//! is claimed by at most one term, and the outcome records the hits, the
//! number of matching files and the terms that matched nothing.

pub mod matching;
pub mod search;
pub mod config;
