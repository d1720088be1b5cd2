//! HTTP/1.x parsing.
//!
//! [`Parser`] compiles the configured patterns into a DFA whose transition
//! table is injected into the BPF parser program. The kernel side walks a
//! message byte by byte, follows the table and runs the action of every
//! transition it takes, which is what turns a pattern into a captured range.

pub mod action;
pub mod block;
pub mod fields;
pub mod first_line;
pub mod heads;
pub mod label;
pub mod labelled;
pub mod laws;
pub mod lines;
pub mod message;
pub mod parser;
pub mod pattern;
pub mod shape;
pub mod text;

pub use parser::{Http1, Parser};
