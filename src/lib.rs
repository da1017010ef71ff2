//! A lightweight markup language: its source text is indexed into lines,
//! parsed into a tree of block and inline nodes that address the text by byte
//! offsets, and rendered to HTML.
pub mod ast;
pub mod laws;
pub mod parser;
pub mod render;
pub mod text;
