//! A small data-interchange text parser built around a fixed-capacity arena.
//!
//! Source text is tokenized and parsed by recursive descent into a tree of
//! values; every nested value is stored in a pre-sized arena allocator and
//! referenced through opaque, type-tagged handles. The root value is returned
//! alongside the arena that owns all of its descendants.

pub mod arena;
pub mod err;
pub mod laws;
pub mod lexer;
pub mod parser;
pub mod render;
pub mod token;
pub mod value;
