//! Lifetime annotations for Rust sources: owners and borrows are marked with
//! `lt!(expr, "label")`, and the analysis reports explicit drops, scope exits
//! and moves into functions that would leave a borrow dangling.
use vstd::prelude::*;

pub mod text;
pub mod numbers;
pub mod syntax;
pub mod joining;
pub mod scanner;
pub mod analyzer;
pub mod legacy;
pub mod report;
pub mod fixtures;
pub mod cli;
pub mod unannotated;
pub mod project;
pub mod shift;
pub mod quotes;

pub use analyzer::{check_source, scannable};
pub use report::{adjust_line_in_msg, adjustable, colorize, file_error_lines, format_error_line};
pub use syntax::is_ident;
