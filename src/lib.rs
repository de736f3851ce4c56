//! A small personal wiki: a graph of named nodes whose text is written in a
//! lightweight markup language and rendered to HTML fragments.

pub mod syntax;
pub mod text;
pub mod types;
