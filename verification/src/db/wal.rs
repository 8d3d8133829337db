//! The write-ahead log: the operations not yet written to the data file.

use vstd::prelude::*;
use crate::dtypes::{Field, FieldV, Key, PDBResult};
use crate::db::codec::{spec_decode_wal, WalDecoder, WalEncoder, spec_wal_entry_bytes};

verus! {

/// One logged operation: setting a key to a field, or deleting a key.
#[derive(Debug)]
pub enum WalEntry {
    SetField(Key, Field),
    Delete(Key),
}

/// The mathematical value of a [`WalEntry`].
pub enum WalEntryV {
    SetField(Seq<u8>, FieldV),
    Delete(Seq<u8>),
}

impl View for WalEntry {
    type V = WalEntryV;

    open spec fn view(&self) -> WalEntryV {
        match self {
            WalEntry::SetField(k, f) => WalEntryV::SetField(k@, f@),
            WalEntry::Delete(k) => WalEntryV::Delete(k@),
        }
    }
}

impl WalEntryV {
    /// The key the entry is about.
    pub open spec fn key(self) -> Seq<u8> {
        match self {
            WalEntryV::SetField(k, _) => k,
            WalEntryV::Delete(k) => k,
        }
    }
}

impl WalEntry {
    /// The key the entry is about.
    pub fn key(&self) -> (k: &Key)
        ensures
            k@ == self@.key(),
    {
        match self {
            WalEntry::SetField(k, _) => k,
            WalEntry::Delete(k) => k,
        }
    }
}

impl Clone for WalEntry {
    fn clone(&self) -> (r: WalEntry)
        ensures
            r@ == self@,
    {
        match self {
            WalEntry::SetField(k, f) => WalEntry::SetField(k.clone(), f.clone()),
            WalEntry::Delete(k) => WalEntry::Delete(k.clone()),
        }
    }
}

/// The values of a sequence of log entries.
pub open spec fn entries_view(es: Seq<WalEntry>) -> Seq<WalEntryV> {
    es.map_values(|e: WalEntry| e@)
}

/// A copy of a sequence of log entries.
pub fn clone_entries(es: &Vec<WalEntry>) -> (r: Vec<WalEntry>)
    ensures
        entries_view(r@) == entries_view(es@),
{
    let mut r: Vec<WalEntry> = Vec::new();
    let mut i: usize = 0;
    while i < es.len()
        invariant
            i <= es@.len(),
            entries_view(r@) == entries_view(es@.subrange(0, i as int)),
        decreases es@.len() - i,
    {
        let e = es[i].clone();
        let ghost old_r = r@;
        r.push(e);
        assert(entries_view(r@) =~= entries_view(old_r).push(es@[i as int]@));
        assert(entries_view(es@.subrange(0, i + 1)) =~= entries_view(es@.subrange(0, i as int)).push(
            es@[i as int]@,
        ));
        i = i + 1;
    }
    assert(es@.subrange(0, es@.len() as int) =~= es@);
    r
}

/// The log's entries that are not yet in the data file, in the order they were made.
pub struct Wal {
    entries: Vec<WalEntry>,
}

impl Wal {
    /// The entries, in order.
    pub closed spec fn view(&self) -> Seq<WalEntryV> {
        entries_view(self.entries@)
    }

    /// A log with no entries.
    pub fn new() -> (w: Wal)
        ensures
            w.view() == Seq::<WalEntryV>::empty(),
    {
        let w = Wal { entries: Vec::new() };
        assert(w.view() =~= Seq::<WalEntryV>::empty());
        w
    }

    /// The bytes to append to the log file for `entry`.
    pub fn entry_bytes(entry: &WalEntry) -> (b: Vec<u8>)
        ensures
            b@ == spec_wal_entry_bytes(entry@),
    {
        let mut encoder = WalEncoder::new();
        encoder.encode_wal_entry(entry);
        let bytes = encoder.finish();
        crate::dtypes::copy_bytes(bytes)
    }

    /// Records `entry` as the newest entry, once its bytes are in the log file.
    pub fn append_entry(&mut self, entry: WalEntry)
        ensures
            final(self).view() == old(self).view().push(entry@),
    {
        let ghost e = entry@;
        self.entries.push(entry);
        assert(self.view() =~= old(self).view().push(e));
    }

    /// Replaces the entries with those the log file's bytes hold (see [`spec_decode_wal`]). On
    /// failure the entries are unchanged.
    pub fn replay(&mut self, file_buffer: &[u8]) -> (r: PDBResult<()>)
        ensures
            match spec_decode_wal(file_buffer@) {
                Ok(es) => r is Ok && final(self).view() == es,
                Err(d) => (r matches Err(e) && e.reports(d)) && final(self).view() == old(self).view(),
            },
    {
        let mut decoder = WalDecoder::new(file_buffer);
        decoder.decode_wal_entries()?;
        let entries = decoder.finish()?;
        self.entries = entries;
        Ok(())
    }

    /// Empties the log, once the log file is truncated.
    pub fn checkpoint(&mut self)
        ensures
            final(self).view() == Seq::<WalEntryV>::empty(),
    {
        self.entries.clear();
        assert(self.view() =~= Seq::<WalEntryV>::empty());
    }

    /// A copy of the entries, in order.
    pub fn pop_uncommited_entries(&self) -> (es: Vec<WalEntry>)
        ensures
            entries_view(es@) == self.view(),
    {
        clone_entries(&self.entries)
    }
}

} // verus!
