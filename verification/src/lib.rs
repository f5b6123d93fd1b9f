//! Finding `ts_block!` macros in Rust sources, collecting their TypeScript
//! bodies, and generating the TypeScript module that runs them.

pub mod closure;
pub mod finder;
pub mod generate;
pub mod laws;
pub mod text;
pub mod lexer;
pub mod outside;
pub mod scan;

pub use closure::{Closure, ClosureSig, Macro};
pub use finder::{Error, LineError, Parser};
