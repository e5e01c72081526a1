//! A small regular-expression engine: a pattern is parsed into a syntax tree,
//! compiled into instructions for a virtual machine, and run against a line of
//! text by a backtracking matcher.
//!
//! ```text
//! let found = regex_engine::do_matching("a(bc)+|c(def)*", "cdefdefdef", true);
//! ```

pub mod engine;
pub mod helper;

pub use engine::{checked_matching, do_matching};
