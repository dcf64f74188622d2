//! Prepares JavaScript and TypeScript modules for an embedded script engine and runs them.

pub mod disk;
pub mod engine;
pub mod error;
pub mod line_laws;
pub mod loading;
pub mod order;
pub mod output;
pub mod quickjs;
pub mod resolver;
pub mod rewrite;
pub mod text;
pub mod text_laws;
pub mod typescript;
pub mod workflow;
