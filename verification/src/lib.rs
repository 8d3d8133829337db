//! PeachDB: a file-backed key/value store, its on-disk formats and its wire protocol.

pub mod endian;
pub mod error;
pub mod dtypes;
pub mod db;
pub mod server;
