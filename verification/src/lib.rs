//! Verified core of a histogram tool for delimited numeric text.
//!
//! The library extracts columns from delimited rows, validates that each
//! extracted field is a well-formed numeric literal, compiles column
//! placeholders out of arithmetic expressions, and turns a sequence of bin
//! indices into per-bin occurrence counts.

pub mod expr;
pub mod histogram;
pub mod numlit;
pub mod parser;
pub mod text;

pub use expr::CompiledExpr;
pub use expr::ExprError;
pub use expr::compile_expression;
pub use expr::var_name;

pub use histogram::Histogram;
pub use histogram::clamp_index;
pub use parser::ColumnParser;
pub use parser::Error;
