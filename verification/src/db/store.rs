//! The database in memory as one value: its state and its log, kept in agreement.

use vstd::prelude::*;
use crate::db::codec::{insert_all, spec_decode_db_file, spec_decode_index_from, spec_decode_index_from_db};
use crate::db::db::{
    apply_entries, law_flush_keeps_fields, law_replay_consistent, lemma_apply_entries_push, net_entries,
    ops_view, spec_appends_before, spec_flush_ops, spec_flushed_fields, spec_flushed_index,
    wal_consistent, FlushOp, IndexEntry, State,
};
use crate::db::wal::{entries_view, Wal, WalEntry, WalEntryV};
use crate::dtypes::{FieldV, PDBResult};

verus! {

/// The state and the log together. The values are always those the data file held at the last
/// flush (or open) with the log's entries applied in order.
pub struct Store {
    state: State,
    wal: Wal,
    committed: Ghost<Map<Seq<u8>, FieldV>>,
}

impl Store {
    /// The values.
    pub closed spec fn fields(&self) -> Map<Seq<u8>, FieldV> {
        self.state.fields()
    }

    /// Where written keys' records lie.
    pub closed spec fn index(&self) -> Map<Seq<u8>, IndexEntry> {
        self.state.index()
    }

    /// The log's entries, in order.
    pub closed spec fn log(&self) -> Seq<WalEntryV> {
        self.wal.view()
    }

    /// The values as of the last flush or open: what the data file holds.
    pub closed spec fn committed(&self) -> Map<Seq<u8>, FieldV> {
        self.committed@
    }

    /// Whether the state is well formed and its values are the committed ones with the log
    /// applied.
    pub closed spec fn wf(&self) -> bool {
        &&& self.state.wf()
        &&& self.state.fields() == apply_entries(self.committed@, self.wal.view())
    }

    /// A well-formed store's values agree with its log, and are the committed ones with the log
    /// applied.
    pub proof fn lemma_agreement(&self)
        requires
            self.wf(),
        ensures
            self.fields() == apply_entries(self.committed(), self.log()),
            wal_consistent(self.fields(), self.log()),
    {
        law_replay_consistent(self.committed@, self.wal.view());
    }

    /// The store of a new database: no values, no records, an empty log.
    pub fn new() -> (s: Store)
        ensures
            s.wf(),
            s.fields() == Map::<Seq<u8>, FieldV>::empty(),
            s.index() == Map::<Seq<u8>, IndexEntry>::empty(),
            s.log() == Seq::<WalEntryV>::empty(),
            s.committed() == Map::<Seq<u8>, FieldV>::empty(),
    {
        Store { state: State::new(), wal: Wal::new(), committed: Ghost(Map::empty()) }
    }

    /// The store of a reopened database: the data file's records committed, the index file's
    /// entries (or, if it is empty, entries built from the data file), and the log read from
    /// the log file applied over them (see [`State::init`]).
    pub fn open(file_buf: &[u8], index_file_buf: &[u8], wal: Wal) -> (r: PDBResult<Store>)
        ensures
            match spec_decode_db_file(file_buf@) {
                Err(d) => r matches Err(e) && e.reports(d),
                Ok((_, pairs)) => {
                    let idx = if index_file_buf@.len() != 0 {
                        spec_decode_index_from(index_file_buf@, 0)
                    } else {
                        spec_decode_index_from_db(file_buf@)
                    };
                    match idx {
                        Err(d) => r matches Err(e) && e.reports(d),
                        Ok(ipairs) => r matches Ok(s) && s.wf() && s.committed() == insert_all(
                            Map::empty(),
                            pairs,
                        ) && s.log() == wal.view() && s.index() == insert_all(Map::empty(), ipairs),
                    }
                },
            },
    {
        let state = State::init(file_buf, index_file_buf, &wal)?;
        let ghost committed = match spec_decode_db_file(file_buf@) {
            Ok((_, pairs)) => insert_all(Map::<Seq<u8>, FieldV>::empty(), pairs),
            Err(_) => Map::empty(),
        };
        Ok(Store { state, wal, committed: Ghost(committed) })
    }

    /// The state, for reads and for deciding how requests are answered.
    pub fn state(&self) -> (s: &State)
        requires
            self.wf(),
        ensures
            s.wf(),
            s.fields() == self.fields(),
            s.index() == self.index(),
    {
        &self.state
    }

    /// Records `entry` in the log and applies it, once its bytes are in the log file.
    pub fn apply_logged(&mut self, entry: WalEntry)
        requires
            old(self).wf(),
        ensures
            final(self).wf(),
            final(self).log() == old(self).log().push(entry@),
            final(self).fields() == apply_entries(old(self).fields(), seq![entry@]),
            final(self).index() == old(self).index(),
            final(self).committed() == old(self).committed(),
    {
        let ghost e = entry@;
        let ghost log0 = self.wal.view();
        let logged = entry.clone();
        self.wal.append_entry(logged);
        self.state.apply_entry(entry);
        proof {
            lemma_apply_entries_push(self.committed@, log0, e);
        }
    }

    /// A copy of the log's entries, in order.
    pub fn entries(&self) -> (es: Vec<WalEntry>)
        ensures
            entries_view(es@) == self.log(),
    {
        self.wal.pop_uncommited_entries()
    }

    /// The writes a flush makes for the log (see [`State::plan_flush`]).
    pub fn plan_flush(&self) -> (ops: Vec<FlushOp>)
        requires
            self.wf(),
        ensures
            ops_view(ops@) == spec_flush_ops(net_entries(self.log()), self.index()),
    {
        let entries = self.wal.pop_uncommited_entries();
        self.state.plan_flush(&entries)
    }

    /// Records a flush's writes (see [`State::apply_flush`]) and empties the log: the values
    /// then are what the data file holds. Where the writes are those planned for the log, the
    /// values are unchanged.
    pub fn finish_flush(&mut self, ops: &Vec<FlushOp>, offsets: &Vec<u64>)
        requires
            old(self).wf(),
            offsets@.len() == spec_appends_before(ops_view(ops@)),
        ensures
            final(self).wf(),
            final(self).log() == Seq::<WalEntryV>::empty(),
            final(self).committed() == final(self).fields(),
            final(self).fields() == spec_flushed_fields(old(self).fields(), ops_view(ops@)),
            final(self).index() == spec_flushed_index(old(self).index(), ops_view(ops@), offsets@),
            ops_view(ops@) == spec_flush_ops(net_entries(old(self).log()), old(self).index())
                ==> final(self).fields() == old(self).fields(),
    {
        proof {
            law_replay_consistent(self.committed@, self.wal.view());
            law_flush_keeps_fields(self.state.fields(), self.wal.view(), self.state.index());
        }
        self.state.apply_flush(ops, offsets);
        self.wal.checkpoint();
        self.committed = Ghost(self.state.fields());
    }
}

} // verus!
