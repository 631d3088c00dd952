//! An exact calculator for durations.

pub mod decimal;
pub mod editor;
pub mod eval;
pub mod format;
pub mod laws;
pub mod lexer;
pub mod number;
pub mod parser;
pub mod registry;
pub mod session;
pub mod syntax;
pub mod text;
pub mod units;
