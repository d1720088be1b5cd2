//! HTTP/2 parsing.
//!
//! HTTP/2 does not spell its header fields out on the wire. HPACK either
//! replaces a field with an index into the static or the dynamic table, or
//! Huffman encodes it. [`Parser`] therefore matches the Huffman encoded field
//! name against its DFA and mirrors the peer's dynamic table in a BPF map, so
//! that indexed fields can be resolved in the kernel as well.

pub mod action;
pub mod conn;
pub mod hpack;
pub mod huffman;
pub mod laws;
pub mod parser;
pub mod static_table;

pub use conn::{DynamicTableInfo, Ip4Addr, Ip4Conn};
pub use parser::Parser;
