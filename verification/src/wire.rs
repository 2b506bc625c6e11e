//! The binary protocol: command and value encodings, and the tables they travel into.
pub mod bytes;
pub mod types;
pub mod wrapper;
pub mod into;
pub mod serializer;
pub mod table;
pub mod roundtrip;
pub mod check;
