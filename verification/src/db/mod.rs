//! The storage engine: its file formats and the in-memory state that they persist.

pub mod codec;
pub mod durable;
pub mod db;
pub mod file;
pub mod keymap;
pub mod laws;
pub mod store;
pub mod wal;

pub use codec::{
    decode, encode, DBDecoder, DBDeleter, DBEncoder, IndexDecoder, IndexEncoder, IndexFromDBDecoder, WalDecoder,
    WalEncoder,
};
pub use db::IndexEntry;
pub use wal::{Wal, WalEntry};

use vstd::prelude::*;

verus! {

/// What the data file's header holds.
pub struct DbMeta {
    pub version: u8,
    pub record_count: u64,
    pub name: String,
}

/// The mathematical value of a [`DbMeta`].
pub struct DbMetaV {
    pub version: u8,
    pub record_count: u64,
    pub name: Seq<char>,
}

impl View for DbMeta {
    type V = DbMetaV;

    open spec fn view(&self) -> DbMetaV {
        DbMetaV { version: self.version, record_count: self.record_count, name: self.name@ }
    }
}

} // verus!
