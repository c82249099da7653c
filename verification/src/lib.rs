//! Interpreter for declarative package build recipes.
//!
//! A recipe is a line-oriented text of `key: value` declarations, indented
//! continuation lines and `#` comments. This crate turns such a text into an
//! ordered key/value mapping, maps the known keys onto a typed package
//! description, and expands the recipe's build steps into literal shell
//! command lines.

pub mod alias;
pub mod expand;
pub mod laws;
pub mod line;
pub mod number;
pub mod package;
pub mod plan;
pub mod parser;
pub mod recipe;
pub mod text;
