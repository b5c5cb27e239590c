//! Directory-tree classification for a project picker: given scan roots and
//! a rule set, decide which paths are worth offering to the user.
//!
//! The rules come from the configuration (`config`) and are merged and
//! compiled once per group of roots (`rules`). A directory listing (`entry`)
//! is judged by itself in `listing`. The walk over a tree held in memory is
//! in `tree`; `scan` is the same walk as a machine that asks for one
//! directory at a time, so that whoever drives it reads only what the walk
//! needs. That the two agree is proved in `agreement`; what holds of every
//! walk is proved in `laws` and `places`. The rest prepares what goes to the
//! selector and to the terminal multiplexer.

pub mod agreement;
pub mod config;
pub mod entry;
pub mod error;
pub mod expand;
pub mod laws;
pub mod listing;
pub mod names;
pub mod paths;
pub mod patterns;
pub mod places;
pub mod rules;
pub mod scan;
pub mod select;
pub mod session;
pub mod text;
pub mod timing;
pub mod tree;
