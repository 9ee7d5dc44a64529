//! A small SourcePawn constant expression engine: tokens, parsing,
//! evaluation of preprocessor conditions and docparse style rendering.

pub mod number;
pub mod token;
pub mod format;
pub mod parse;
pub mod eval;
pub mod render;
