//! An in-memory key-value store speaking the RESP wire protocol.
//!
//! The crate is organised as the server's three cores: the protocol
//! codec (`value`, `serializer`, `de`, with `numbers` for the decimal
//! lines), the command layer (`command`, `query`, with `bytes` for case
//! folding and `pattern` for glob matching), and the key-value engine
//! (`database`). Network I/O and threading live outside the library;
//! apart from the glob predicate and the clock, every function here is
//! pure computation over plain values, verified against its contract.

pub mod numbers;
pub mod bytes;
pub mod value;
pub mod serializer;
pub mod de;
pub mod database;
pub mod command;
pub mod pattern;
pub mod query;
