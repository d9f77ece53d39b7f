//! A minimal line-oriented key-value command protocol: a verified grammar and
//! parser for the six-command language (`get`, `set`, `mset`, `incr`, `list`,
//! `exit`), a verified in-memory key-value store, and the per-line dispatch
//! engine that maps each parsed command to exactly one protocol reply.

pub mod decimal;
pub mod parser;
pub mod session;
pub mod store;

pub use parser::Command;
pub use parser::KeyValue;
pub use parser::parse_command;
