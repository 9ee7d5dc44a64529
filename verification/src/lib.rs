//! SourcePawn documentation toolkit: a preprocessor, a constant expression
//! engine, comment association and the documentation schema.

pub mod text;
pub mod preprocess;
pub mod expr;
pub mod comments;
pub mod schema;
pub mod mono;
pub mod manifest;
pub mod syntax;
pub mod extract;
pub mod source;
pub mod sitemap;
pub mod chronicle;
pub mod catalog;
pub mod history;
pub mod generator;

pub use crate::source::{parse, parse_bytes, parse_checked, parse_bytes_checked, AlternatorError};
