//! Terminal markdown rendering: a width-aware renderer that turns a stream of
//! markdown events into ANSI-decorated plain text, with a two-pass table
//! layout engine, greedy word wrapping, and a syntax-highlighting adapter.

pub mod chars;
pub mod wrap;
pub mod table;
pub mod parse;
pub mod events;
pub mod syntax;
pub mod render;
pub mod hints;
pub mod commands;
