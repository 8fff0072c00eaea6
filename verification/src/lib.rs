//! The core of a small browser: a forgiving markup parser that builds a
//! document tree, and a layout engine that walks the tree and places its
//! words on lines, ready for a renderer.
//!
//! Fetching, measuring and drawing are left to the program around this
//! library, which hands it plain values: the text of a document, the
//! measured size of a word, the width of the window.

pub mod arena;
pub mod dom;
pub mod layout;
pub mod lexer;
pub mod metrics;
pub mod networking;
pub mod string_map;
pub mod style;
pub mod text;
