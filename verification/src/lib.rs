//! A small key-value database and the binary protocol that serves it, with their contracts
//! proved by Verus.
//!
//! - [`wire`]: the binary protocol: type codes, values and tables, reading commands and
//!   values out of bytes and writing them back, and running commands ([`executor`]).
//! - [`data`], [`command`], [`database`], [`session`]: the newer database, whose tables are
//!   reached by `/`-separated paths ([`path`]), and the decisions of a data session.
//! - [`parser`], [`events`], [`framing`]: JSON values, event commands and message frames.
pub mod error;
pub mod path;
pub mod data;
pub mod command;
pub mod database;
pub mod wire;
pub mod framing;
pub mod executor;
pub mod events;
pub mod parser;
pub mod session;

