//! What the data file holds after flushes: a header and a run of records, live or deleted, and
//! that it reads back as the values the database had when it flushed.

use vstd::prelude::*;
use crate::db::codec::{
    insert_all, spec_decode_records, spec_index_from_db_records, spec_is_tombstone, spec_record_bytes,
    spec_records_bytes,
    spec_tombstone_bytes, spec_zeros,
};
use crate::db::laws::{
    law_deleted_record_length, lemma_decode_records_step, lemma_record_roundtrip, record_encodable,
};
use crate::db::codec::{spec_db_header_bytes, spec_decode_db_file, spec_decode_index_from_db, DB_HEADER_LEN};
use crate::db::db::RECORD_COUNT_OFFSET;
use crate::db::db::{
    agrees, apply_entries, is_last, law_record_count_offset, law_replay_consistent,
    lemma_appends_nonneg, net_entries, net_prefix, spec_appends_before, spec_flush_op, spec_flush_ops, spec_flushed_index, FlushOpV,
    IndexEntry,
};
use crate::db::wal::WalEntryV;
use crate::db::laws::lemma_db_header_roundtrip;
use crate::db::DbMetaV;
use crate::dtypes::{spec_field_bytes, FieldV};
use crate::error::DecodeFailure;

verus! {

/// One record of the data file, by what it holds: a live record of a key and its field, or a
/// deleted record, all zeros, as long as a live record with these key and field lengths.
pub enum Slot {
    Live(Seq<u8>, FieldV),
    Dead(u16, u32),
}

/// The bytes of one record.
pub open spec fn slot_bytes(s: Slot) -> Seq<u8> {
    match s {
        Slot::Live(k, f) => spec_record_bytes(k, f),
        Slot::Dead(kl, fl) => spec_tombstone_bytes(kl, fl),
    }
}

/// Whether a record reads back: a live one's key and field are encodable.
pub open spec fn slot_encodable(s: Slot) -> bool {
    match s {
        Slot::Live(k, f) => record_encodable(k, f),
        Slot::Dead(_, _) => true,
    }
}

/// The bytes of records, one after another.
pub open spec fn slots_bytes(ss: Seq<Slot>) -> Seq<u8>
    decreases ss.len(),
{
    if ss.len() == 0 {
        Seq::empty()
    } else {
        slots_bytes(ss.drop_last()) + slot_bytes(ss.last())
    }
}

/// The (key, field) pairs of the live records, in order.
pub open spec fn live_pairs(ss: Seq<Slot>) -> Seq<(Seq<u8>, FieldV)>
    decreases ss.len(),
{
    if ss.len() == 0 {
        Seq::empty()
    } else {
        let p = live_pairs(ss.drop_last());
        match ss.last() {
            Slot::Live(k, f) => p.push((k, f)),
            Slot::Dead(_, _) => p,
        }
    }
}

/// Whether the record `s` is a live record of `k`.
pub open spec fn live_of(s: Slot, k: Seq<u8>) -> bool {
    s matches Slot::Live(k2, _) && k2 == k
}

/// The bytes of two runs of records are those of the first, then those of the second.
pub proof fn lemma_slots_bytes_concat(a: Seq<Slot>, b: Seq<Slot>)
    ensures
        slots_bytes(a + b) == slots_bytes(a) + slots_bytes(b),
    decreases b.len(),
{
    if b.len() == 0 {
        assert(a + b =~= a);
        assert(slots_bytes(a) + slots_bytes(b) =~= slots_bytes(a));
    } else {
        lemma_slots_bytes_concat(a, b.drop_last());
        assert((a + b).drop_last() =~= a + b.drop_last());
        assert((a + b).last() == b.last());
        assert(slots_bytes(a + b) =~= slots_bytes(a) + slots_bytes(b));
    }
}

/// The live pairs of two runs of records are those of the first, then those of the second.
pub proof fn lemma_live_pairs_concat(a: Seq<Slot>, b: Seq<Slot>)
    ensures
        live_pairs(a + b) == live_pairs(a) + live_pairs(b),
    decreases b.len(),
{
    if b.len() == 0 {
        assert(a + b =~= a);
        assert(live_pairs(a) + live_pairs(b) =~= live_pairs(a));
    } else {
        lemma_live_pairs_concat(a, b.drop_last());
        assert((a + b).drop_last() =~= a + b.drop_last());
        assert((a + b).last() == b.last());
        match b.last() {
            Slot::Live(k, f) => {
                assert(live_pairs(a + b) =~= live_pairs(a) + live_pairs(b));
            },
            Slot::Dead(_, _) => {
                assert(live_pairs(a + b) =~= live_pairs(a) + live_pairs(b));
            },
        }
    }
}

/// One record alone: its bytes, and its pair if it is live.
pub proof fn lemma_single_slot(s: Slot)
    ensures
        slots_bytes(seq![s]) == slot_bytes(s),
        live_pairs(seq![s]) == match s {
            Slot::Live(k, f) => seq![(k, f)],
            Slot::Dead(_, _) => Seq::<(Seq<u8>, FieldV)>::empty(),
        },
{
    let one = seq![s];
    assert(one.drop_last() =~= Seq::<Slot>::empty());
    assert(one.last() == s);
    assert(slots_bytes(one.drop_last()) == Seq::<u8>::empty());
    assert(live_pairs(one.drop_last()) == Seq::<(Seq<u8>, FieldV)>::empty());
    assert(slots_bytes(one) == slots_bytes(one.drop_last()) + slot_bytes(one.last()));
    assert(slots_bytes(one) =~= slot_bytes(s));
    match s {
        Slot::Live(k, f) => {
            assert(live_pairs(one) == live_pairs(one.drop_last()).push((k, f)));
            assert(live_pairs(one) =~= seq![(k, f)]);
        },
        Slot::Dead(_, _) => {
            assert(live_pairs(seq![s]) =~= Seq::<(Seq<u8>, FieldV)>::empty());
        },
    }
}

/// Records, live or deleted, read back as the pairs of the live ones, in order.
#[verifier::rlimit(40)]
pub proof fn lemma_slots_decode(prefix: Seq<u8>, ss: Seq<Slot>)
    requires
        forall|i: int| 0 <= i < ss.len() ==> slot_encodable(#[trigger] ss[i]),
    ensures
        spec_decode_records(prefix + slots_bytes(ss), prefix.len() as int) == Ok::<
            Seq<(Seq<u8>, FieldV)>,
            DecodeFailure,
        >(live_pairs(ss)),
    decreases ss.len(),
{
    let buf = prefix + slots_bytes(ss);
    let p = prefix.len() as int;
    if ss.len() == 0 {
        assert(buf =~= prefix);
        assert(live_pairs(ss) =~= Seq::<(Seq<u8>, FieldV)>::empty());
    } else {
        let s = ss[0];
        let rest = ss.drop_first();
        assert(ss =~= seq![s] + rest);
        lemma_slots_bytes_concat(seq![s], rest);
        lemma_live_pairs_concat(seq![s], rest);
        lemma_single_slot(s);
        let sb = slot_bytes(s);
        assert(buf =~= (prefix + sb) + slots_bytes(rest));
        assert forall|i: int| 0 <= i < rest.len() implies slot_encodable(#[trigger] rest[i]) by {
            assert(rest[i] == ss[i + 1]);
        }
        lemma_slots_decode(prefix + sb, rest);
        assert(slot_encodable(ss[0]));
        match s {
            Slot::Live(k, f) => {
                lemma_record_roundtrip(prefix, k, f, slots_bytes(rest));
                assert(prefix + sb + slots_bytes(rest) == buf);
                lemma_decode_records_step(buf, p);
                assert(seq![(k, f)] + live_pairs(rest) =~= live_pairs(ss));
            },
            Slot::Dead(kl, fl) => {
                assert(buf.subrange(p, p + sb.len()) =~= sb);
                lemma_zeros_skipped(buf, p, sb.len());
                assert(Seq::<(Seq<u8>, FieldV)>::empty() + live_pairs(rest) =~= live_pairs(ss));
            },
        }
    }
}

/// A key has a value among the live pairs exactly where some live record holds it.
pub proof fn lemma_live_keys(ss: Seq<Slot>, k: Seq<u8>)
    ensures
        insert_all(Map::empty(), live_pairs(ss)).contains_key(k) <==> exists|i: int|
            0 <= i < ss.len() && live_of(#[trigger] ss[i], k),
    decreases ss.len(),
{
    if ss.len() > 0 {
        let init = ss.drop_last();
        lemma_live_keys(init, k);
        if exists|i: int| 0 <= i < init.len() && live_of(#[trigger] init[i], k) {
            let i = choose|i: int| 0 <= i < init.len() && live_of(#[trigger] init[i], k);
            assert(ss[i] == init[i]);
        }
        if exists|i: int| 0 <= i < ss.len() && live_of(#[trigger] ss[i], k) {
            let i = choose|i: int| 0 <= i < ss.len() && live_of(#[trigger] ss[i], k);
            if i < init.len() {
                assert(init[i] == ss[i]);
            }
        }
        match ss.last() {
            Slot::Live(k2, f2) => {
                let lp = live_pairs(init);
                assert(live_pairs(ss) == lp.push((k2, f2)));
                assert(lp.push((k2, f2)).drop_last() =~= lp);
                assert(lp.push((k2, f2)).last() == (k2, f2));
                assert(live_of(ss[ss.len() - 1], k2));
            },
            Slot::Dead(_, _) => {},
        }
    }
}

/// Whether record `i` is the last live record of `k`.
pub open spec fn last_live(ss: Seq<Slot>, i: int, k: Seq<u8>) -> bool {
    &&& 0 <= i < ss.len()
    &&& live_of(ss[i], k)
    &&& forall|j: int| i < j < ss.len() ==> !live_of(#[trigger] ss[j], k)
}

/// Whether record `i` is the only live record of `k`.
pub open spec fn only_live(ss: Seq<Slot>, i: int, k: Seq<u8>) -> bool {
    &&& last_live(ss, i, k)
    &&& forall|j: int| 0 <= j < i ==> !live_of(#[trigger] ss[j], k)
}

/// A record deleted in place: a live record becomes a deleted one with its lengths.
pub open spec fn deleted(s: Slot) -> Slot {
    match s {
        Slot::Live(k, f) => Slot::Dead(k.len() as u16, spec_field_bytes(f).len() as u32),
        Slot::Dead(kl, fl) => Slot::Dead(kl, fl),
    }
}

/// The bytes of a file after writing `bytes` at `offset`: what was before, the bytes, and what
/// they did not reach; a write past the end leaves zeros in the gap.
pub open spec fn spec_write_at(buf: Seq<u8>, offset: int, bytes: Seq<u8>) -> Seq<u8> {
    let front = if offset <= buf.len() {
        buf.subrange(0, offset)
    } else {
        buf + spec_zeros((offset - buf.len()) as nat)
    };
    let end = offset + bytes.len();
    let back = if end < buf.len() {
        buf.subrange(end, buf.len() as int)
    } else {
        Seq::<u8>::empty()
    };
    front + bytes + back
}

/// Deleting the only live record of a key removes that key from the values the records hold.
pub proof fn lemma_delete_only_live(ss: Seq<Slot>, i: int, k: Seq<u8>)
    requires
        only_live(ss, i, k),
    ensures
        insert_all(Map::empty(), live_pairs(ss.update(i, deleted(ss[i])))) == insert_all(
            Map::empty(),
            live_pairs(ss),
        ).remove(k),
    decreases ss.len(),
{
    let init = ss.drop_last();
    let ss2 = ss.update(i, deleted(ss[i]));
    let last = ss.len() - 1;
    if i == last {
        assert(ss2.drop_last() =~= init);
        assert(ss2.last() == deleted(ss[i]));
        assert(live_pairs(ss2) == live_pairs(init));
        assert forall|j: int| 0 <= j < init.len() implies !live_of(#[trigger] init[j], k) by {
            assert(init[j] == ss[j]);
        }
        lemma_live_keys(init, k);
        let m = insert_all(Map::<Seq<u8>, FieldV>::empty(), live_pairs(init));
        assert(!m.contains_key(k));
        match ss[i] {
            Slot::Live(k2, f) => {
                let lp = live_pairs(init).push((k2, f));
                assert(live_pairs(ss) == lp);
                assert(lp.drop_last() =~= live_pairs(init));
                assert(lp.last() == (k2, f));
                assert(insert_all(Map::empty(), lp) == m.insert(k2, f));
                assert(m.insert(k2, f).remove(k) =~= m);
            },
            Slot::Dead(_, _) => {},
        }
    } else {
        assert(ss2.drop_last() =~= init.update(i, deleted(init[i])));
        assert(init[i] == ss[i]);
        assert(ss2.last() == ss.last());
        assert forall|j: int| i < j < init.len() implies !live_of(#[trigger] init[j], k) by {
            assert(init[j] == ss[j]);
        }
        assert forall|j: int| 0 <= j < i implies !live_of(#[trigger] init[j], k) by {
            assert(init[j] == ss[j]);
        }
        lemma_delete_only_live(init, i, k);
        let m = insert_all(Map::<Seq<u8>, FieldV>::empty(), live_pairs(init));
        let m2 = insert_all(Map::<Seq<u8>, FieldV>::empty(), live_pairs(ss2.drop_last()));
        assert(m2 == m.remove(k));
        assert(!live_of(ss[last], k));
        match ss.last() {
            Slot::Live(k2, f2) => {
                assert(k2 != k);
                let lp = live_pairs(init).push((k2, f2));
                let lp2 = live_pairs(ss2.drop_last()).push((k2, f2));
                assert(live_pairs(ss) == lp);
                assert(live_pairs(ss2) == lp2);
                assert(lp.drop_last() =~= live_pairs(init));
                assert(lp2.drop_last() =~= live_pairs(ss2.drop_last()));
                assert(insert_all(Map::empty(), lp) == m.insert(k2, f2));
                assert(insert_all(Map::empty(), lp2) == m2.insert(k2, f2));
                assert(m.remove(k).insert(k2, f2) =~= m.insert(k2, f2).remove(k));
            },
            Slot::Dead(_, _) => {
                assert(live_pairs(ss) == live_pairs(init));
                assert(live_pairs(ss2) == live_pairs(ss2.drop_last()));
            },
        }
    }
}

/// Deleting a live record in place: the file's bytes are those of the records with that one
/// deleted, and their length is unchanged.
pub proof fn lemma_delete_in_place(h: Seq<u8>, ss: Seq<Slot>, i: int)
    requires
        0 <= i < ss.len(),
        ss[i] is Live,
        slot_encodable(ss[i]),
    ensures
        spec_write_at(
            h + slots_bytes(ss),
            (h.len() + slots_bytes(ss.subrange(0, i)).len()) as int,
            slot_bytes(deleted(ss[i])),
        ) == h + slots_bytes(ss.update(i, deleted(ss[i]))),
        slots_bytes(ss.update(i, deleted(ss[i]))).len() == slots_bytes(ss).len(),
{
    let d = deleted(ss[i]);
    let a = ss.subrange(0, i);
    let b = ss.subrange(i + 1, ss.len() as int);
    let ss2 = ss.update(i, d);
    assert(ss =~= a + seq![ss[i]] + b);
    assert(ss2 =~= a + seq![d] + b);
    lemma_slots_bytes_concat(a, seq![ss[i]]);
    lemma_slots_bytes_concat(a + seq![ss[i]], b);
    lemma_slots_bytes_concat(a, seq![d]);
    lemma_slots_bytes_concat(a + seq![d], b);
    lemma_single_slot(ss[i]);
    lemma_single_slot(d);
    if let Slot::Live(k, f) = ss[i] {
        law_deleted_record_length(k, f);
    }
    let r = slot_bytes(ss[i]);
    let t = slot_bytes(d);
    assert(r.len() == t.len());
    let buf = h + slots_bytes(ss);
    assert(buf =~= h + slots_bytes(a) + r + slots_bytes(b));
    assert(h + slots_bytes(ss2) =~= h + slots_bytes(a) + t + slots_bytes(b));
    let off = (h.len() + slots_bytes(a).len()) as int;
    assert(buf.subrange(0, off) =~= h + slots_bytes(a));
    if off + t.len() < buf.len() {
        assert(buf.subrange(off + t.len(), buf.len() as int) =~= slots_bytes(b));
    } else {
        assert(slots_bytes(b).len() == 0);
        assert(slots_bytes(b) =~= Seq::<u8>::empty());
    }
}

/// The data file after a flush's writes, in order: each append at the end, each deleted record
/// written over its live one.
pub open spec fn spec_flushed_file(buf: Seq<u8>, ops: Seq<FlushOpV>) -> Seq<u8>
    decreases ops.len(),
{
    if ops.len() == 0 {
        buf
    } else {
        let prev = spec_flushed_file(buf, ops.drop_last());
        match ops.last() {
            FlushOpV::Append { record, .. } => prev + record,
            FlushOpV::Tombstone { offset, bytes, .. } => spec_write_at(prev, offset as int, bytes),
        }
    }
}

/// The positions a flush's appends return: the file's length before each append.
pub open spec fn spec_append_offsets(buf: Seq<u8>, ops: Seq<FlushOpV>) -> Seq<u64>
    decreases ops.len(),
{
    if ops.len() == 0 {
        Seq::empty()
    } else {
        let prev = spec_append_offsets(buf, ops.drop_last());
        match ops.last() {
            FlushOpV::Append { .. } => prev.push(spec_flushed_file(buf, ops.drop_last()).len() as u64),
            FlushOpV::Tombstone { .. } => prev,
        }
    }
}

/// Whether index entry `e` gives where the last live record of `k`, record `i`, starts in the
/// data file, and the lengths it was written with.
pub open spec fn indexes(ss: Seq<Slot>, i: int, k: Seq<u8>, e: IndexEntry) -> bool {
    &&& last_live(ss, i, k)
    &&& e.offset == DB_HEADER_LEN + slots_bytes(ss.subrange(0, i)).len()
    &&& e.key_len == k.len()
    &&& e.field_len == spec_field_bytes(ss[i]->Live_1).len()
}

/// Whether the data file `buf` is the header of `meta` followed by the records `ss` that read
/// back as `values`, and `index` gives, for each key with a live record, where its last one is
/// (record `pos[k]`).
pub open spec fn on_disk(
    buf: Seq<u8>,
    meta: DbMetaV,
    ss: Seq<Slot>,
    pos: Map<Seq<u8>, int>,
    values: Map<Seq<u8>, FieldV>,
    index: Map<Seq<u8>, IndexEntry>,
) -> bool {
    &&& buf == spec_db_header_bytes(meta) + slots_bytes(ss)
    &&& forall|i: int| 0 <= i < ss.len() ==> slot_encodable(#[trigger] ss[i])
    &&& insert_all(Map::empty(), live_pairs(ss)) == values
    &&& pos.dom() == index.dom()
    &&& forall|k: Seq<u8>| #[trigger] index.contains_key(k) ==> indexes(ss, pos[k], k, index[k])
    &&& forall|i: int| 0 <= i < ss.len() && (#[trigger] ss[i] is Live) ==> index.contains_key(ss[i]->Live_0)
}

/// Appending a record of `k` keeps the file in step: `k` gets its field and an index entry at
/// the old end of the file.
pub proof fn lemma_append_step(
    buf: Seq<u8>,
    meta: DbMetaV,
    ss: Seq<Slot>,
    pos: Map<Seq<u8>, int>,
    values: Map<Seq<u8>, FieldV>,
    index: Map<Seq<u8>, IndexEntry>,
    k: Seq<u8>,
    f: FieldV,
    off: u64,
)
    requires
        on_disk(buf, meta, ss, pos, values, index),
        record_encodable(k, f),
        off == buf.len(),
    ensures
        on_disk(
            buf + spec_record_bytes(k, f),
            meta,
            ss.push(Slot::Live(k, f)),
            pos.insert(k, ss.len() as int),
            values.insert(k, f),
            index.insert(
                k,
                IndexEntry { offset: off, key_len: k.len() as u16, field_len: spec_field_bytes(f).len() as u32 },
            ),
        ),
{
    lemma_db_header_roundtrip(meta, Seq::empty());
    let ss2 = ss.push(Slot::Live(k, f));
    let pos2 = pos.insert(k, ss.len() as int);
    let e = IndexEntry { offset: off, key_len: k.len() as u16, field_len: spec_field_bytes(f).len() as u32 };
    let index2 = index.insert(k, e);
    assert(ss2.drop_last() =~= ss);
    assert(ss2.last() == Slot::Live(k, f));
    assert(slots_bytes(ss2) == slots_bytes(ss) + spec_record_bytes(k, f));
    assert(spec_db_header_bytes(meta) + slots_bytes(ss2) =~= buf + spec_record_bytes(k, f));
    assert forall|i: int| 0 <= i < ss2.len() implies slot_encodable(#[trigger] ss2[i]) by {
        if i < ss.len() {
            assert(ss2[i] == ss[i]);
        }
    }
    let lp = live_pairs(ss).push((k, f));
    assert(live_pairs(ss2) == lp);
    assert(lp.drop_last() =~= live_pairs(ss));
    assert(insert_all(Map::empty(), lp) == values.insert(k, f));
    assert(pos2.dom() =~= index2.dom());
    assert forall|k2: Seq<u8>| #[trigger] index2.contains_key(k2) implies indexes(ss2, pos2[k2], k2, index2[k2]) by {
        if k2 == k {
            assert(ss2.subrange(0, ss.len() as int) =~= ss);
            assert(live_of(ss2[ss.len() as int], k));
        } else {
            let p = pos[k2];
            assert(indexes(ss, p, k2, index[k2]));
            assert(ss2.subrange(0, p) =~= ss.subrange(0, p));
            assert(ss2[p] == ss[p]);
            assert forall|j: int| p < j < ss2.len() implies !live_of(#[trigger] ss2[j], k2) by {
                if j < ss.len() {
                    assert(ss2[j] == ss[j]);
                }
            }
        }
    }
    assert forall|i: int| 0 <= i < ss2.len() && (#[trigger] ss2[i] is Live) implies index2.contains_key(
        ss2[i]->Live_0,
    ) by {
        if i < ss.len() {
            assert(ss2[i] == ss[i]);
        }
    }
}

/// Writing the deleted form of `k`'s only live record over it keeps the file in step: `k` loses
/// its value and its index entry.
pub proof fn lemma_tombstone_step(
    buf: Seq<u8>,
    meta: DbMetaV,
    ss: Seq<Slot>,
    pos: Map<Seq<u8>, int>,
    values: Map<Seq<u8>, FieldV>,
    index: Map<Seq<u8>, IndexEntry>,
    k: Seq<u8>,
)
    requires
        on_disk(buf, meta, ss, pos, values, index),
        index.contains_key(k),
        only_live(ss, pos[k], k),
    ensures
        on_disk(
            spec_write_at(
                buf,
                index[k].offset as int,
                spec_tombstone_bytes(index[k].key_len, index[k].field_len),
            ),
            meta,
            ss.update(pos[k], deleted(ss[pos[k]])),
            pos.remove(k),
            values.remove(k),
            index.remove(k),
        ),
        ss.update(pos[k], deleted(ss[pos[k]])).len() == ss.len(),
        forall|j: int| 0 <= j < ss.len() && j != pos[k] ==> ss.update(pos[k], deleted(ss[pos[k]]))[j] == ss[j],
{
    lemma_db_header_roundtrip(meta, Seq::empty());
    let i = pos[k];
    let d = deleted(ss[i]);
    let ss2 = ss.update(i, d);
    let pos2 = pos.remove(k);
    let index2 = index.remove(k);
    let h = spec_db_header_bytes(meta);
    assert(indexes(ss, i, k, index[k]));
    assert(slot_encodable(ss[i]));
    lemma_delete_in_place(h, ss, i);
    assert(slot_bytes(d) == spec_tombstone_bytes(index[k].key_len, index[k].field_len));
    assert(index[k].offset == h.len() + slots_bytes(ss.subrange(0, i)).len());
    assert forall|j: int| 0 <= j < ss2.len() implies slot_encodable(#[trigger] ss2[j]) by {
        if j != i {
            assert(ss2[j] == ss[j]);
        }
    }
    lemma_delete_only_live(ss, i, k);
    assert(pos2.dom() =~= index2.dom());
    assert forall|k2: Seq<u8>| #[trigger] index2.contains_key(k2) implies indexes(ss2, pos2[k2], k2, index2[k2]) by {
        let p = pos[k2];
        assert(indexes(ss, p, k2, index[k2]));
        assert(p != i);
        assert(ss2[p] == ss[p]);
        assert forall|j: int| p < j < ss2.len() implies !live_of(#[trigger] ss2[j], k2) by {
            if j != i {
                assert(ss2[j] == ss[j]);
            }
        }
        if p < i {
            assert(ss2.subrange(0, p) =~= ss.subrange(0, p));
        } else {
            let sub = ss.subrange(0, p);
            assert(ss2.subrange(0, p) =~= sub.update(i, deleted(sub[i])));
            lemma_delete_in_place(Seq::empty(), sub, i);
        }
    }
    assert forall|j: int| 0 <= j < ss2.len() && (#[trigger] ss2[j] is Live) implies index2.contains_key(
        ss2[j]->Live_0,
    ) by {
        assert(j != i);
        assert(ss2[j] == ss[j]);
        if ss2[j]->Live_0 == k {
            assert(live_of(ss[j], k));
        }
    }
}

/// A delete of a key with no index entry writes nothing, and the key has no value to lose.
pub proof fn lemma_unindexed_delete(
    buf: Seq<u8>,
    meta: DbMetaV,
    ss: Seq<Slot>,
    pos: Map<Seq<u8>, int>,
    values: Map<Seq<u8>, FieldV>,
    index: Map<Seq<u8>, IndexEntry>,
    k: Seq<u8>,
)
    requires
        on_disk(buf, meta, ss, pos, values, index),
        !index.contains_key(k),
    ensures
        values.remove(k) == values,
{
    lemma_live_keys(ss, k);
    if values.contains_key(k) {
        let i = choose|i: int| 0 <= i < ss.len() && live_of(#[trigger] ss[i], k);
        assert(ss[i] is Live);
    }
    assert(values.remove(k) =~= values);
}

/// The keys that entries are about.
pub open spec fn keys_of(es: Seq<WalEntryV>) -> Set<Seq<u8>>
    decreases es.len(),
{
    if es.len() == 0 {
        Set::empty()
    } else {
        keys_of(es.drop_last()).insert(es.last().key())
    }
}

/// Whether no two entries are about the same key.
pub open spec fn distinct_keys(es: Seq<WalEntryV>) -> bool
    decreases es.len(),
{
    es.len() == 0 || (distinct_keys(es.drop_last()) && !keys_of(es.drop_last()).contains(es.last().key()))
}

/// Whether an entry can be written to the data file so that it reads back: a set's key and
/// field are encodable.
pub open spec fn writable(e: WalEntryV) -> bool {
    match e {
        WalEntryV::SetField(k, f) => record_encodable(k, f),
        WalEntryV::Delete(_) => true,
    }
}

/// The index after writes depends only on the offsets of its own appends.
pub proof fn lemma_flushed_index_offsets(
    index: Map<Seq<u8>, IndexEntry>,
    ops: Seq<FlushOpV>,
    a: Seq<u64>,
    b: Seq<u64>,
)
    requires
        forall|j: int| 0 <= j < spec_appends_before(ops) ==> a[j] == b[j],
    ensures
        spec_flushed_index(index, ops, a) == spec_flushed_index(index, ops, b),
    decreases ops.len(),
{
    if ops.len() > 0 {
        let init = ops.drop_last();
        let n = spec_appends_before(init);
        assert(spec_appends_before(ops) == n + if ops.last() is Append {
            1int
        } else {
            0int
        });
        lemma_flushed_index_offsets(index, init, a, b);
        if ops.last() is Append {
            lemma_appends_nonneg(init);
            assert(a[n] == b[n]);
        }
    }
}

/// There is one offset per append.
pub proof fn lemma_append_offsets_len(buf: Seq<u8>, ops: Seq<FlushOpV>)
    ensures
        spec_append_offsets(buf, ops).len() == spec_appends_before(ops),
    decreases ops.len(),
{
    if ops.len() > 0 {
        lemma_append_offsets_len(buf, ops.drop_last());
    }
}

/// A write never shortens the file.
pub proof fn lemma_write_at_len(buf: Seq<u8>, offset: int, bytes: Seq<u8>)
    requires
        0 <= offset,
    ensures
        spec_write_at(buf, offset, bytes).len() >= buf.len(),
{
}

/// Writing a flush's writes for entries about distinct keys keeps the file in step with the
/// values those entries give; the records and index entries of other keys stay as they were.
#[verifier::rlimit(60)]
pub proof fn lemma_flush_entries(
    buf: Seq<u8>,
    meta: DbMetaV,
    ss: Seq<Slot>,
    pos: Map<Seq<u8>, int>,
    values: Map<Seq<u8>, FieldV>,
    index: Map<Seq<u8>, IndexEntry>,
    net: Seq<WalEntryV>,
) -> (r: (Seq<Slot>, Map<Seq<u8>, int>))
    requires
        on_disk(buf, meta, ss, pos, values, index),
        distinct_keys(net),
        forall|j: int| 0 <= j < net.len() ==> writable(#[trigger] net[j]),
        forall|j: int|
            0 <= j < net.len() && (#[trigger] net[j] is Delete) && index.contains_key(net[j].key()) ==> only_live(
                ss,
                pos[net[j].key()],
                net[j].key(),
            ),
        spec_flushed_file(buf, spec_flush_ops(net, index)).len() <= u64::MAX,
    ensures
        ({
            let ops = spec_flush_ops(net, index);
            let index2 = spec_flushed_index(index, ops, spec_append_offsets(buf, ops));
            &&& on_disk(spec_flushed_file(buf, ops), meta, r.0, r.1, apply_entries(values, net), index2)
            &&& ss.len() <= r.0.len()
            &&& forall|i: int|
                0 <= i < ss.len() ==> (#[trigger] r.0[i] == ss[i] || (ss[i] is Live && keys_of(net).contains(
                    ss[i]->Live_0,
                ) && r.0[i] == deleted(ss[i])))
            &&& forall|i: int| ss.len() <= i < r.0.len() ==> (#[trigger] r.0[i] is Live && keys_of(net).contains(
                r.0[i]->Live_0,
            ))
            &&& forall|i: int, j: int|
                ss.len() <= i < j < r.0.len() ==> (#[trigger] r.0[i])->Live_0 != (#[trigger] r.0[j])->Live_0
            &&& forall|k: Seq<u8>|
                !(#[trigger] keys_of(net).contains(k)) ==> (index2.contains_key(k) == index.contains_key(k) && (
                index.contains_key(k) ==> index2[k] == index[k] && r.1[k] == pos[k]))
        }),
    decreases net.len(),
{
    let ops = spec_flush_ops(net, index);
    if net.len() == 0 {
        assert(ops =~= Seq::<FlushOpV>::empty());
        assert(keys_of(net) =~= Set::<Seq<u8>>::empty());
        (ss, pos)
    } else {
        let init = net.drop_last();
        let e = net.last();
        let k = e.key();
        let ops0 = spec_flush_ops(init, index);
        let op = spec_flush_op(e, index);
        assert(ops == ops0 + op);
        assert forall|j: int| 0 <= j < init.len() implies writable(#[trigger] init[j]) by {
            assert(init[j] == net[j]);
        }
        assert forall|j: int|
            0 <= j < init.len() && (#[trigger] init[j] is Delete) && index.contains_key(init[j].key()) implies only_live(
            ss,
            pos[init[j].key()],
            init[j].key(),
        ) by {
            assert(init[j] == net[j]);
        }
        let buf0 = spec_flushed_file(buf, ops0);
        let offs0 = spec_append_offsets(buf, ops0);
        let offs = spec_append_offsets(buf, ops);
        lemma_append_offsets_len(buf, ops0);
        if op.len() == 0 {
            assert(ops =~= ops0);
        } else {
            assert(op.len() == 1);
            assert(ops.drop_last() =~= ops0);
            assert(ops.last() == op[0]);
            match op[0] {
                FlushOpV::Append { .. } => {},
                FlushOpV::Tombstone { offset, .. } => {
                    lemma_write_at_len(buf0, offset as int, op[0]->Tombstone_bytes);
                },
            }
        }
        assert(buf0.len() <= u64::MAX);
        let r0 = lemma_flush_entries(buf, meta, ss, pos, values, index, init);
        let (ss0, pos0) = r0;
        let values0 = apply_entries(values, init);
        let index0 = spec_flushed_index(index, ops0, offs0);
        assert(keys_of(net) == keys_of(init).insert(k));
        assert(!keys_of(init).contains(k));
        assert(net[net.len() - 1] == e);
        // The index so far reads the same offsets from the whole flush's appends.
        assert(offs.subrange(0, offs0.len() as int) =~= offs0) by {
            if op.len() == 1 && op[0] is Append {
                assert(offs == offs0.push(buf0.len() as u64));
            } else if op.len() == 1 {
                assert(offs == offs0);
            }
        }
        lemma_flushed_index_offsets(index, ops0, offs, offs0);
        assert(spec_flushed_index(index, ops0, offs) == index0);
        match e {
            WalEntryV::SetField(k1, f) => {
                assert(writable(net[net.len() - 1]));
                let rec_op = op[0];
                assert(offs[offs0.len() as int] == buf0.len() as u64);
                assert(spec_appends_before(ops0) == offs0.len());
                lemma_append_step(buf0, meta, ss0, pos0, values0, index0, k, f, buf0.len() as u64);
                let ss2 = ss0.push(Slot::Live(k, f));
                let pos2 = pos0.insert(k, ss0.len() as int);
                assert(apply_entries(values, net) == values0.insert(k, f));
                assert(spec_flushed_file(buf, ops) == buf0 + spec_record_bytes(k, f));
                assert(forall|i: int| 0 <= i < ss.len() ==> #[trigger] ss2[i] == ss0[i]);
                assert forall|i: int| ss.len() <= i < ss2.len() implies (#[trigger] ss2[i] is Live && keys_of(
                    net,
                ).contains(ss2[i]->Live_0)) by {
                    if i < ss0.len() {
                        assert(ss2[i] == ss0[i]);
                    }
                }
                (ss2, pos2)
            },
            WalEntryV::Delete(k1) => {
                assert(apply_entries(values, net) == values0.remove(k));
                if index.contains_key(k) {
                    assert(net[net.len() - 1] is Delete);
                    assert(only_live(ss, pos[k], k));
                    assert(index0.contains_key(k) && index0[k] == index[k] && pos0[k] == pos[k]);
                    let p = pos[k];
                    assert(ss0[p] == ss[p]) by {
                        assert(live_of(ss[p], k));
                    }
                    assert forall|j: int| 0 <= j < ss0.len() && j != p implies !live_of(#[trigger] ss0[j], k) by {
                        if j < ss.len() {
                            if ss0[j] != ss[j] {
                                assert(ss0[j] == deleted(ss[j]));
                            }
                        }
                    }
                    assert(only_live(ss0, p, k));
                    lemma_tombstone_step(buf0, meta, ss0, pos0, values0, index0, k);
                    let ss2 = ss0.update(p, deleted(ss0[p]));
                    let pos2 = pos0.remove(k);
                    assert(spec_flushed_file(buf, ops) == spec_write_at(
                        buf0,
                        index[k].offset as int,
                        spec_tombstone_bytes(index[k].key_len, index[k].field_len),
                    ));
                    assert(spec_flushed_index(index, ops, offs) == index0.remove(k));
                    assert forall|i: int| ss.len() <= i < ss2.len() implies (#[trigger] ss2[i] is Live && keys_of(
                        net,
                    ).contains(ss2[i]->Live_0)) by {
                        assert(ss2[i] == ss0[i]);
                    }
                    assert forall|i: int| 0 <= i < ss.len() implies (#[trigger] ss2[i] == ss[i] || (ss[i] is Live
                        && keys_of(net).contains(ss[i]->Live_0) && ss2[i] == deleted(ss[i]))) by {
                        if i != p {
                            assert(ss2[i] == ss0[i]);
                        }
                    }
                    (ss2, pos2)
                } else {
                    assert(!index0.contains_key(k));
                    lemma_unindexed_delete(buf0, meta, ss0, pos0, values0, index0, k);
                    assert(op =~= Seq::<FlushOpV>::empty());
                    (ss0, pos0)
                }
            },
        }
    }
}

/// A key is among the entries' keys exactly where some entry is about it.
pub proof fn lemma_keys_of(es: Seq<WalEntryV>, k: Seq<u8>)
    ensures
        keys_of(es).contains(k) <==> exists|j: int| 0 <= j < es.len() && (#[trigger] es[j]).key() == k,
    decreases es.len(),
{
    if es.len() > 0 {
        let init = es.drop_last();
        lemma_keys_of(init, k);
        if exists|j: int| 0 <= j < init.len() && (#[trigger] init[j]).key() == k {
            let j = choose|j: int| 0 <= j < init.len() && (#[trigger] init[j]).key() == k;
            assert(es[j] == init[j]);
        }
        if exists|j: int| 0 <= j < es.len() && (#[trigger] es[j]).key() == k {
            let j = choose|j: int| 0 <= j < es.len() && (#[trigger] es[j]).key() == k;
            if j < init.len() {
                assert(init[j] == es[j]);
            }
        }
        assert(es[es.len() - 1] == es.last());
    }
}

/// Entries about distinct keys: no two of them are about the same key.
pub proof fn lemma_distinct_keys(es: Seq<WalEntryV>)
    requires
        distinct_keys(es),
    ensures
        forall|a: int, b: int| 0 <= a < b < es.len() ==> (#[trigger] es[a]).key() != (#[trigger] es[b]).key(),
    decreases es.len(),
{
    if es.len() > 0 {
        let init = es.drop_last();
        lemma_distinct_keys(init);
        lemma_keys_of(init, es.last().key());
        assert forall|a: int, b: int| 0 <= a < b < es.len() implies (#[trigger] es[a]).key() != (
        #[trigger] es[b]).key() by {
            assert(es[a] == init[a]);
            if b < init.len() {
                assert(es[b] == init[b]);
            } else {
                assert(es[b] == es.last());
            }
        }
    }
}

/// Whether `e` is an entry among the first `n` that is the last about its key.
pub open spec fn last_among(es: Seq<WalEntryV>, n: int, e: WalEntryV) -> bool {
    exists|i: int| 0 <= i < n && is_last(es, i) && #[trigger] es[i] == e
}

/// Each net entry is an entry that is the last about its key.
pub proof fn lemma_net_prefix_from(es: Seq<WalEntryV>, n: int)
    requires
        0 <= n <= es.len(),
    ensures
        forall|j: int| 0 <= j < net_prefix(es, n).len() ==> last_among(es, n, #[trigger] net_prefix(es, n)[j]),
    decreases n,
{
    if n > 0 {
        lemma_net_prefix_from(es, n - 1);
        let prev = net_prefix(es, n - 1);
        let cur = net_prefix(es, n);
        assert forall|j: int| 0 <= j < prev.len() implies last_among(es, n, #[trigger] prev[j]) by {
            assert(last_among(es, n - 1, prev[j]));
            let i = choose|i: int| 0 <= i < n - 1 && is_last(es, i) && #[trigger] es[i] == prev[j];
            assert(0 <= i < n && is_last(es, i) && es[i] == prev[j]);
        }
        if is_last(es, n - 1) {
            assert(cur == prev.push(es[n - 1]));
            assert forall|j: int| 0 <= j < cur.len() implies last_among(es, n, #[trigger] cur[j]) by {
                if j < prev.len() {
                    assert(cur[j] == prev[j]);
                } else {
                    assert(cur[j] == es[n - 1]);
                    assert(0 <= n - 1 < n && is_last(es, n - 1) && es[n - 1] == cur[j]);
                }
            }
        } else {
            assert(cur == prev);
        }
    }
}

/// Each entry that is the last about its key is a net entry.
pub proof fn lemma_net_prefix_has(es: Seq<WalEntryV>, n: int)
    requires
        0 <= n <= es.len(),
    ensures
        forall|i: int| 0 <= i < n && #[trigger] is_last(es, i) ==> exists|j: int|
            0 <= j < net_prefix(es, n).len() && net_prefix(es, n)[j] == es[i],
    decreases n,
{
    if n > 0 {
        lemma_net_prefix_has(es, n - 1);
        let prev = net_prefix(es, n - 1);
        let cur = net_prefix(es, n);
        if is_last(es, n - 1) {
            assert(cur == prev.push(es[n - 1]));
            assert forall|i: int| 0 <= i < n && #[trigger] is_last(es, i) implies exists|j: int|
                0 <= j < cur.len() && cur[j] == es[i] by {
                if i < n - 1 {
                    let j = choose|j: int| 0 <= j < prev.len() && prev[j] == es[i];
                    assert(cur[j] == prev[j]);
                } else {
                    assert(cur[prev.len() as int] == es[n - 1]);
                }
            }
        } else {
            assert(cur == prev);
        }
    }
}

/// The net entries are about distinct keys.
pub proof fn lemma_net_prefix_distinct(es: Seq<WalEntryV>, n: int)
    requires
        0 <= n <= es.len(),
    ensures
        distinct_keys(net_prefix(es, n)),
    decreases n,
{
    if n > 0 {
        lemma_net_prefix_distinct(es, n - 1);
        let prev = net_prefix(es, n - 1);
        let cur = net_prefix(es, n);
        if is_last(es, n - 1) {
            assert(cur == prev.push(es[n - 1]));
            assert(cur.drop_last() =~= prev);
            assert(cur.last() == es[n - 1]);
            lemma_net_prefix_from(es, n - 1);
            lemma_keys_of(prev, es[n - 1].key());
            if keys_of(prev).contains(es[n - 1].key()) {
                let j = choose|j: int| 0 <= j < prev.len() && (#[trigger] prev[j]).key() == es[n - 1].key();
                assert(last_among(es, n - 1, prev[j]));
                let i = choose|i: int| 0 <= i < n - 1 && is_last(es, i) && #[trigger] es[i] == prev[j];
                assert(es[n - 1].key() != es[i].key());
            }
        } else {
            assert(cur == prev);
        }
    }
}

/// The entry about `es[i]`'s key that comes last.
pub proof fn lemma_last_occurrence(es: Seq<WalEntryV>, i: int) -> (j: int)
    requires
        0 <= i < es.len(),
    ensures
        i <= j < es.len(),
        es[j].key() == es[i].key(),
        is_last(es, j),
    decreases es.len() - i,
{
    if is_last(es, i) {
        i
    } else {
        let j = choose|j: int| i < j < es.len() && #[trigger] es[j].key() == es[i].key();
        lemma_last_occurrence(es, j)
    }
}

/// Entries about other keys leave a key's value as it was.
pub proof fn lemma_untouched(m: Map<Seq<u8>, FieldV>, es: Seq<WalEntryV>, k: Seq<u8>)
    requires
        forall|j: int| 0 <= j < es.len() ==> (#[trigger] es[j]).key() != k,
    ensures
        apply_entries(m, es).contains_key(k) == m.contains_key(k),
        m.contains_key(k) ==> apply_entries(m, es)[k] == m[k],
    decreases es.len(),
{
    if es.len() > 0 {
        let init = es.drop_last();
        assert forall|j: int| 0 <= j < init.len() implies (#[trigger] init[j]).key() != k by {
            assert(init[j] == es[j]);
        }
        lemma_untouched(m, init, k);
        assert(es[es.len() - 1] == es.last());
    }
}

/// At one key, applying only the last entry about each key gives what applying them all gives.
pub proof fn lemma_net_entries_apply_at(m: Map<Seq<u8>, FieldV>, es: Seq<WalEntryV>, k: Seq<u8>)
    ensures
        apply_entries(m, net_entries(es)).contains_key(k) == apply_entries(m, es).contains_key(k),
        apply_entries(m, es).contains_key(k) ==> apply_entries(m, net_entries(es))[k] == apply_entries(m, es)[k],
{
    let net = net_entries(es);
    let a = apply_entries(m, es);
    let b = apply_entries(m, net);
    lemma_net_prefix_from(es, es.len() as int);
    lemma_net_prefix_has(es, es.len() as int);
    lemma_net_prefix_distinct(es, es.len() as int);
    lemma_distinct_keys(net);
    law_replay_consistent(m, es);
    law_replay_consistent(m, net);
    if exists|i: int| 0 <= i < es.len() && (#[trigger] es[i]).key() == k {
        let i0 = choose|i: int| 0 <= i < es.len() && (#[trigger] es[i]).key() == k;
        let i = lemma_last_occurrence(es, i0);
        let j = choose|j: int| 0 <= j < net.len() && net[j] == es[i];
        assert(is_last(net, j)) by {
            assert forall|x: int| j < x < net.len() implies #[trigger] net[x].key() != net[j].key() by {
                assert(net[j].key() != net[x].key());
            }
        }
        assert(agrees(a, es[i]));
        assert(agrees(b, net[j]));
    } else {
        lemma_untouched(m, es, k);
        assert forall|j: int| 0 <= j < net.len() implies (#[trigger] net[j]).key() != k by {
            assert(last_among(es, es.len() as int, net[j]));
            let i = choose|i: int| 0 <= i < es.len() && is_last(es, i) && #[trigger] es[i] == net[j];
            assert(es[i].key() != k);
        }
        lemma_untouched(m, net, k);
    }
}

/// Applying only the last entry about each key gives the values that applying them all gives.
pub proof fn lemma_net_entries_apply(m: Map<Seq<u8>, FieldV>, es: Seq<WalEntryV>)
    ensures
        apply_entries(m, net_entries(es)) == apply_entries(m, es),
        distinct_keys(net_entries(es)),
{
    let a = apply_entries(m, es);
    let b = apply_entries(m, net_entries(es));
    lemma_net_prefix_distinct(es, es.len() as int);
    assert forall|k: Seq<u8>| #[trigger] a.dom().contains(k) == b.dom().contains(k) by {
        lemma_net_entries_apply_at(m, es, k);
    }
    assert(a.dom() =~= b.dom());
    assert forall|k: Seq<u8>| #[trigger] a.dom().contains(k) implies a[k] == b[k] by {
        lemma_net_entries_apply_at(m, es, k);
    }
    assert(a =~= b);
}

/// A new database's file, its header alone, holds no records, no values and no index entries.
pub proof fn law_new_file_on_disk(meta: DbMetaV)
    ensures
        on_disk(
            spec_db_header_bytes(meta),
            meta,
            Seq::empty(),
            Map::empty(),
            Map::empty(),
            Map::empty(),
        ),
{
    assert(spec_db_header_bytes(meta) + slots_bytes(Seq::<Slot>::empty()) =~= spec_db_header_bytes(meta));
    assert(live_pairs(Seq::<Slot>::empty()) =~= Seq::<(Seq<u8>, FieldV)>::empty());
    assert(Map::<Seq<u8>, int>::empty().dom() =~= Map::<Seq<u8>, IndexEntry>::empty().dom());
}

/// A file in step with the values reads back as them: decoding it gives the header's contents
/// and pairs that, inserted in order, are the values.
pub proof fn law_on_disk_reads_back(
    buf: Seq<u8>,
    meta: DbMetaV,
    ss: Seq<Slot>,
    pos: Map<Seq<u8>, int>,
    values: Map<Seq<u8>, FieldV>,
    index: Map<Seq<u8>, IndexEntry>,
)
    requires
        on_disk(buf, meta, ss, pos, values, index),
    ensures
        spec_decode_db_file(buf) matches Ok((_, pairs)) && insert_all(Map::empty(), pairs) == values,
{
    lemma_db_header_roundtrip(meta, slots_bytes(ss));
    lemma_slots_decode(spec_db_header_bytes(meta), ss);
}

/// Writing the record count into the header keeps the file in step: the header then records
/// that count.
pub proof fn law_record_count_on_disk(
    buf: Seq<u8>,
    meta: DbMetaV,
    ss: Seq<Slot>,
    pos: Map<Seq<u8>, int>,
    values: Map<Seq<u8>, FieldV>,
    index: Map<Seq<u8>, IndexEntry>,
    n: u64,
)
    requires
        on_disk(buf, meta, ss, pos, values, index),
    ensures
        on_disk(
            spec_write_at(buf, RECORD_COUNT_OFFSET as int, vstd::bytes::spec_u64_to_le_bytes(n)),
            DbMetaV { record_count: n, ..meta },
            ss,
            pos,
            values,
            index,
        ),
{
    crate::endian::lemma_endian_roundtrips();
    lemma_db_header_roundtrip(meta, Seq::empty());
    lemma_db_header_roundtrip(DbMetaV { record_count: n, ..meta }, Seq::empty());
    law_record_count_offset(meta, n);
    let h = spec_db_header_bytes(meta);
    let h2 = spec_db_header_bytes(DbMetaV { record_count: n, ..meta });
    let le = vstd::bytes::spec_u64_to_le_bytes(n);
    assert(buf.subrange(0, 34) =~= h.subrange(0, 34));
    assert(buf.subrange(42, buf.len() as int) =~= h.subrange(42, 114) + slots_bytes(ss));
    assert(spec_write_at(buf, 34, le) =~= h2 + slots_bytes(ss));
}

/// A flush writes what the database holds. If the data file is in step with the values
/// `committed` and the index, then after the writes a flush makes for the log `es` (appends at
/// the end, deleted records over live ones) the file is in step with `committed` with the log
/// applied and with the index the flush computes from the appends' positions. What this needs
/// beyond each logged set being encodable and the file fitting `u64` offsets: a key whose last
/// entry is a delete has no live record besides the one the index gives (a key written in two
/// flushes keeps its older record, which the delete does not reach).
pub proof fn law_flush_persists(
    buf: Seq<u8>,
    meta: DbMetaV,
    ss: Seq<Slot>,
    pos: Map<Seq<u8>, int>,
    committed: Map<Seq<u8>, FieldV>,
    index: Map<Seq<u8>, IndexEntry>,
    es: Seq<WalEntryV>,
)
    requires
        on_disk(buf, meta, ss, pos, committed, index),
        forall|i: int| 0 <= i < es.len() ==> writable(#[trigger] es[i]),
        forall|j: int|
            0 <= j < net_entries(es).len() && (#[trigger] net_entries(es)[j] is Delete) && index.contains_key(
                net_entries(es)[j].key(),
            ) ==> only_live(ss, pos[net_entries(es)[j].key()], net_entries(es)[j].key()),
        spec_flushed_file(buf, spec_flush_ops(net_entries(es), index)).len() <= u64::MAX,
    ensures
        ({
            let ops = spec_flush_ops(net_entries(es), index);
            exists|ss2: Seq<Slot>, pos2: Map<Seq<u8>, int>|
                on_disk(
                    spec_flushed_file(buf, ops),
                    meta,
                    ss2,
                    pos2,
                    apply_entries(committed, es),
                    spec_flushed_index(index, ops, spec_append_offsets(buf, ops)),
                )
        }),
{
    let net = net_entries(es);
    lemma_net_entries_apply(committed, es);
    lemma_net_prefix_from(es, es.len() as int);
    assert forall|j: int| 0 <= j < net.len() implies writable(#[trigger] net[j]) by {
        assert(last_among(es, es.len() as int, net[j]));
        let i = choose|i: int| 0 <= i < es.len() && is_last(es, i) && #[trigger] es[i] == net[j];
        assert(writable(es[i]));
    }
    let r = lemma_flush_entries(buf, meta, ss, pos, committed, index, net);
    let ops = spec_flush_ops(net, index);
    assert(on_disk(
        spec_flushed_file(buf, ops),
        meta,
        r.0,
        r.1,
        apply_entries(committed, es),
        spec_flushed_index(index, ops, spec_append_offsets(buf, ops)),
    ));
}

/// What a reopen reads after a flush is what the database held: from a data file in step with
/// `committed`, the flush's writes for the log `es` and the record count `n` written into the
/// header give a file that decodes to pairs whose map is `committed` with the log applied, the
/// values in memory. It needs what [`law_flush_persists`] needs.
pub proof fn law_reopen_after_flush(
    buf: Seq<u8>,
    meta: DbMetaV,
    ss: Seq<Slot>,
    pos: Map<Seq<u8>, int>,
    committed: Map<Seq<u8>, FieldV>,
    index: Map<Seq<u8>, IndexEntry>,
    es: Seq<WalEntryV>,
    n: u64,
)
    requires
        on_disk(buf, meta, ss, pos, committed, index),
        forall|i: int| 0 <= i < es.len() ==> writable(#[trigger] es[i]),
        forall|j: int|
            0 <= j < net_entries(es).len() && (#[trigger] net_entries(es)[j] is Delete) && index.contains_key(
                net_entries(es)[j].key(),
            ) ==> only_live(ss, pos[net_entries(es)[j].key()], net_entries(es)[j].key()),
        spec_flushed_file(buf, spec_flush_ops(net_entries(es), index)).len() <= u64::MAX,
    ensures
        spec_decode_db_file(
            spec_write_at(
                spec_flushed_file(buf, spec_flush_ops(net_entries(es), index)),
                RECORD_COUNT_OFFSET as int,
                vstd::bytes::spec_u64_to_le_bytes(n),
            ),
        ) matches Ok((_, pairs)) && insert_all(Map::empty(), pairs) == apply_entries(committed, es),
{
    law_flush_persists(buf, meta, ss, pos, committed, index, es);
    let ops = spec_flush_ops(net_entries(es), index);
    let file = spec_flushed_file(buf, ops);
    let index2 = spec_flushed_index(index, ops, spec_append_offsets(buf, ops));
    let values = apply_entries(committed, es);
    let (ss2, pos2) = choose|ss2: Seq<Slot>, pos2: Map<Seq<u8>, int>| on_disk(file, meta, ss2, pos2, values, index2);
    law_record_count_on_disk(file, meta, ss2, pos2, values, index2, n);
    law_on_disk_reads_back(
        spec_write_at(file, RECORD_COUNT_OFFSET as int, vstd::bytes::spec_u64_to_le_bytes(n)),
        DbMetaV { record_count: n, ..meta },
        ss2,
        pos2,
        values,
        index2,
    );
}

/// Live records of pairs, in order.
pub open spec fn live_slots(pairs: Seq<(Seq<u8>, FieldV)>) -> Seq<Slot> {
    pairs.map_values(|p: (Seq<u8>, FieldV)| Slot::Live(p.0, p.1))
}

/// Live records of pairs are those pairs' records and read as those pairs.
pub proof fn lemma_live_slots(pairs: Seq<(Seq<u8>, FieldV)>)
    ensures
        slots_bytes(live_slots(pairs)) == spec_records_bytes(pairs),
        live_pairs(live_slots(pairs)) == pairs,
    decreases pairs.len(),
{
    if pairs.len() > 0 {
        let init = pairs.drop_last();
        lemma_live_slots(init);
        assert(live_slots(pairs).drop_last() =~= live_slots(init));
        assert(live_slots(pairs).last() == Slot::Live(pairs.last().0, pairs.last().1));
        assert(live_pairs(live_slots(pairs)) =~= pairs);
    } else {
        assert(live_pairs(live_slots(pairs)) =~= pairs);
    }
}

/// A deleted record is passed over: records, a deleted record of any lengths, then more records
/// read back as the live records' pairs alone, in order.
pub proof fn law_deleted_record_skipped(
    prefix: Seq<u8>,
    before: Seq<(Seq<u8>, FieldV)>,
    key_len: u16,
    field_len: u32,
    after: Seq<(Seq<u8>, FieldV)>,
)
    requires
        forall|i: int| 0 <= i < before.len() ==> record_encodable(#[trigger] before[i].0, before[i].1),
        forall|i: int| 0 <= i < after.len() ==> record_encodable(#[trigger] after[i].0, after[i].1),
    ensures
        spec_decode_records(
            prefix + spec_records_bytes(before) + spec_tombstone_bytes(key_len, field_len) + spec_records_bytes(after),
            prefix.len() as int,
        ) == Ok::<Seq<(Seq<u8>, FieldV)>, DecodeFailure>(before + after),
{
    let a = live_slots(before);
    let d = seq![Slot::Dead(key_len, field_len)];
    let b = live_slots(after);
    lemma_live_slots(before);
    lemma_live_slots(after);
    lemma_single_slot(Slot::Dead(key_len, field_len));
    lemma_slots_bytes_concat(a, d);
    lemma_slots_bytes_concat(a + d, b);
    lemma_live_pairs_concat(a, d);
    lemma_live_pairs_concat(a + d, b);
    let ss = a + d + b;
    assert forall|i: int| 0 <= i < ss.len() implies slot_encodable(#[trigger] ss[i]) by {
        if i < before.len() {
            assert(ss[i] == a[i]);
            assert(record_encodable(before[i].0, before[i].1));
        } else if i > before.len() {
            assert(ss[i] == b[i - before.len() - 1]);
            assert(record_encodable(after[i - before.len() - 1].0, after[i - before.len() - 1].1));
        }
    }
    lemma_slots_decode(prefix, ss);
    assert(prefix + slots_bytes(ss) =~= prefix + spec_records_bytes(before) + spec_tombstone_bytes(key_len, field_len)
        + spec_records_bytes(after));
    assert(live_pairs(ss) =~= before + after);
}

/// The index entries a scan of records finds: for each live record, its key with where it starts
/// (the records begin at `start`) and its lengths.
pub open spec fn scanned_index(ss: Seq<Slot>, start: int) -> Seq<(Seq<u8>, IndexEntry)>
    decreases ss.len(),
{
    if ss.len() == 0 {
        Seq::empty()
    } else {
        let p = scanned_index(ss.drop_last(), start);
        match ss.last() {
            Slot::Live(k, f) => p.push(
                (
                    k,
                    IndexEntry {
                        offset: (start + slots_bytes(ss.drop_last()).len()) as u64,
                        key_len: k.len() as u16,
                        field_len: spec_field_bytes(f).len() as u32,
                    },
                ),
            ),
            Slot::Dead(_, _) => p,
        }
    }
}

/// Whether every live record has a non-empty key.
pub open spec fn keys_nonempty(ss: Seq<Slot>) -> bool {
    forall|i: int| 0 <= i < ss.len() && (#[trigger] ss[i] is Live) ==> ss[i]->Live_0.len() > 0
}

/// Every record takes at least fourteen bytes.
pub proof fn lemma_slots_len(ss: Seq<Slot>)
    ensures
        slots_bytes(ss).len() >= 14 * ss.len(),
    decreases ss.len(),
{
    if ss.len() > 0 {
        lemma_slots_len(ss.drop_last());
        crate::endian::lemma_endian_roundtrips();
        assert(slot_bytes(ss.last()).len() >= 14);
        assert(slots_bytes(ss).len() == slots_bytes(ss.drop_last()).len() + slot_bytes(ss.last()).len());
    }
}

/// The scan of two runs of records: the first's entries, then the second's from where it starts.
pub proof fn lemma_scanned_concat(a: Seq<Slot>, b: Seq<Slot>, start: int)
    ensures
        scanned_index(a + b, start) == scanned_index(a, start) + scanned_index(b, start + slots_bytes(a).len()),
    decreases b.len(),
{
    if b.len() == 0 {
        assert(a + b =~= a);
        assert(scanned_index(a, start) + scanned_index(b, start + slots_bytes(a).len()) =~= scanned_index(a, start));
    } else {
        lemma_scanned_concat(a, b.drop_last(), start);
        assert((a + b).drop_last() =~= a + b.drop_last());
        assert((a + b).last() == b.last());
        lemma_slots_bytes_concat(a, b.drop_last());
        match b.last() {
            Slot::Live(k, f) => {
                assert(scanned_index(a + b, start) =~= scanned_index(a, start) + scanned_index(
                    b,
                    start + slots_bytes(a).len(),
                ));
            },
            Slot::Dead(_, _) => {
                assert(scanned_index(a + b, start) =~= scanned_index(a, start) + scanned_index(
                    b,
                    start + slots_bytes(a).len(),
                ));
            },
        }
    }
}

/// Scanning records, live or deleted, finds an entry for each live record, in order.
#[verifier::rlimit(60)]
pub proof fn lemma_slots_scan(prefix: Seq<u8>, ss: Seq<Slot>)
    requires
        forall|i: int| 0 <= i < ss.len() ==> slot_encodable(#[trigger] ss[i]),
        keys_nonempty(ss),
        prefix.len() + slots_bytes(ss).len() <= u64::MAX,
    ensures
        spec_index_from_db_records(prefix + slots_bytes(ss), prefix.len() as int) == Ok::<
            Seq<(Seq<u8>, IndexEntry)>,
            DecodeFailure,
        >(scanned_index(ss, prefix.len() as int)),
    decreases ss.len(),
{
    let buf = prefix + slots_bytes(ss);
    let p = prefix.len() as int;
    if ss.len() == 0 {
        assert(buf =~= prefix);
    } else {
        let s = ss[0];
        let rest = ss.drop_first();
        assert(ss =~= seq![s] + rest);
        lemma_slots_bytes_concat(seq![s], rest);
        lemma_scanned_concat(seq![s], rest, p);
        lemma_single_slot(s);
        let sb = slot_bytes(s);
        assert(buf =~= (prefix + sb) + slots_bytes(rest));
        assert forall|i: int| 0 <= i < rest.len() implies slot_encodable(#[trigger] rest[i]) by {
            assert(rest[i] == ss[i + 1]);
        }
        assert forall|i: int| 0 <= i < rest.len() && (#[trigger] rest[i] is Live) implies rest[i]->Live_0.len() > 0 by {
            assert(rest[i] == ss[i + 1]);
        }
        lemma_slots_scan(prefix + sb, rest);
        assert(slot_encodable(ss[0]));
        lemma_slots_len(rest);
        let one = seq![s];
        assert(one.drop_last() =~= Seq::<Slot>::empty());
        assert(slots_bytes(one.drop_last()).len() == 0);
        assert(scanned_index(one.drop_last(), p) == Seq::<(Seq<u8>, IndexEntry)>::empty());
        match s {
            Slot::Live(k, f) => {
                assert(ss[0] is Live);
                assert(k.len() > 0);
                lemma_record_roundtrip(prefix, k, f, slots_bytes(rest));
                assert(prefix + sb + slots_bytes(rest) == buf);
                crate::endian::lemma_endian_roundtrips();
                assert(buf.subrange(p, p + 4) =~= sb.subrange(0, 4));
                assert(scanned_index(one, p) == seq![
                    (
                        k,
                        IndexEntry {
                            offset: p as u64,
                            key_len: k.len() as u16,
                            field_len: spec_field_bytes(f).len() as u32,
                        },
                    ),
                ]);
                assert(buf.subrange(p + 14, p + 14 + k.len()) =~= k);
                if rest.len() == 0 {
                    assert(scanned_index(rest, p + sb.len()) =~= Seq::<(Seq<u8>, IndexEntry)>::empty());
                    assert(scanned_index(ss, p) =~= scanned_index(one, p));
                }
            },
            Slot::Dead(kl, fl) => {
                assert(buf.subrange(p, p + sb.len()) =~= sb);
                lemma_zeros_skipped(buf, p, sb.len());
                assert(scanned_index(one, p) =~= Seq::<(Seq<u8>, IndexEntry)>::empty());
                assert(scanned_index(ss, p) =~= scanned_index(rest, p + sb.len()));
                if rest.len() == 0 {
                    assert(scanned_index(rest, p + sb.len()) =~= Seq::<(Seq<u8>, IndexEntry)>::empty());
                }
            },
        }
    }
}

/// The entry a scan finds for live record `i`.
pub open spec fn scanned_entry(ss: Seq<Slot>, i: int, start: int) -> IndexEntry {
    IndexEntry {
        offset: (start + slots_bytes(ss.subrange(0, i)).len()) as u64,
        key_len: ss[i]->Live_0.len() as u16,
        field_len: spec_field_bytes(ss[i]->Live_1).len() as u32,
    }
}

/// The scan's entries, inserted in order, hold for each key with a live record the entry of its
/// last one, and no other keys.
pub proof fn lemma_scanned_map(ss: Seq<Slot>, start: int, k: Seq<u8>)
    ensures
        insert_all(Map::empty(), scanned_index(ss, start)).contains_key(k) <==> exists|i: int|
            0 <= i < ss.len() && live_of(#[trigger] ss[i], k),
        forall|i: int| #[trigger] last_live(ss, i, k) ==> insert_all(Map::empty(), scanned_index(ss, start))[k]
            == scanned_entry(ss, i, start),
    decreases ss.len(),
{
    if ss.len() > 0 {
        let init = ss.drop_last();
        let n = ss.len() - 1;
        lemma_scanned_map(init, start, k);
        let m0 = insert_all(Map::<Seq<u8>, IndexEntry>::empty(), scanned_index(init, start));
        if exists|i: int| 0 <= i < init.len() && live_of(#[trigger] init[i], k) {
            let i = choose|i: int| 0 <= i < init.len() && live_of(#[trigger] init[i], k);
            assert(ss[i] == init[i]);
        }
        if exists|i: int| 0 <= i < ss.len() && live_of(#[trigger] ss[i], k) {
            let i = choose|i: int| 0 <= i < ss.len() && live_of(#[trigger] ss[i], k);
            if i < init.len() {
                assert(init[i] == ss[i]);
            }
        }
        assert(ss[n] == ss.last());
        match ss.last() {
            Slot::Live(k2, f2) => {
                let e = IndexEntry {
                    offset: (start + slots_bytes(init).len()) as u64,
                    key_len: k2.len() as u16,
                    field_len: spec_field_bytes(f2).len() as u32,
                };
                let sc = scanned_index(init, start).push((k2, e));
                assert(scanned_index(ss, start) == sc);
                assert(sc.drop_last() =~= scanned_index(init, start));
                assert(sc.last() == (k2, e));
                assert(insert_all(Map::<Seq<u8>, IndexEntry>::empty(), sc) == m0.insert(k2, e));
                assert(live_of(ss[n], k2));
                assert(ss.subrange(0, n) =~= init);
                assert forall|i: int| #[trigger] last_live(ss, i, k) implies insert_all(
                    Map::empty(),
                    scanned_index(ss, start),
                )[k] == scanned_entry(ss, i, start) by {
                    if i < n {
                        assert(k2 != k);
                        assert(last_live(init, i, k)) by {
                            assert(init[i] == ss[i]);
                            assert forall|j: int| i < j < init.len() implies !live_of(#[trigger] init[j], k) by {
                                assert(init[j] == ss[j]);
                            }
                        }
                        assert(ss.subrange(0, i) =~= init.subrange(0, i));
                        assert(init[i] == ss[i]);
                    }
                }
            },
            Slot::Dead(_, _) => {
                assert(scanned_index(ss, start) == scanned_index(init, start));
                assert forall|i: int| #[trigger] last_live(ss, i, k) implies insert_all(
                    Map::empty(),
                    scanned_index(ss, start),
                )[k] == scanned_entry(ss, i, start) by {
                    assert(i < n);
                    assert(last_live(init, i, k)) by {
                        assert(init[i] == ss[i]);
                        assert forall|j: int| i < j < init.len() implies !live_of(#[trigger] init[j], k) by {
                            assert(init[j] == ss[j]);
                        }
                    }
                    assert(ss.subrange(0, i) =~= init.subrange(0, i));
                    assert(init[i] == ss[i]);
                }
            },
        }
    }
}

/// An index rebuilt from a data file in step with an index is that index: scanning the file's
/// live records, later ones winning, gives each key the entry the index has for it. Where every
/// key is non-empty (an empty key is refused by the scan) and the file fits `u64` offsets.
pub proof fn law_index_rebuilt(
    buf: Seq<u8>,
    meta: DbMetaV,
    ss: Seq<Slot>,
    pos: Map<Seq<u8>, int>,
    values: Map<Seq<u8>, FieldV>,
    index: Map<Seq<u8>, IndexEntry>,
)
    requires
        on_disk(buf, meta, ss, pos, values, index),
        keys_nonempty(ss),
        buf.len() <= u64::MAX,
    ensures
        spec_decode_index_from_db(buf) matches Ok(pairs) && insert_all(Map::empty(), pairs) == index,
{
    lemma_db_header_roundtrip(meta, Seq::empty());
    let h = spec_db_header_bytes(meta);
    lemma_slots_scan(h, ss);
    let m = insert_all(Map::<Seq<u8>, IndexEntry>::empty(), scanned_index(ss, 114));
    assert forall|k: Seq<u8>| #[trigger] m.dom().contains(k) == index.dom().contains(k) by {
        lemma_scanned_map(ss, 114, k);
        if index.contains_key(k) {
            assert(indexes(ss, pos[k], k, index[k]));
            assert(live_of(ss[pos[k]], k));
        }
        if m.contains_key(k) {
            let i = choose|i: int| 0 <= i < ss.len() && live_of(#[trigger] ss[i], k);
            assert(ss[i] is Live);
        }
    }
    assert(m.dom() =~= index.dom());
    assert forall|k: Seq<u8>| #[trigger] m.dom().contains(k) implies m[k] == index[k] by {
        lemma_scanned_map(ss, 114, k);
        assert(indexes(ss, pos[k], k, index[k]));
        assert(last_live(ss, pos[k], k));
        let e = scanned_entry(ss, pos[k], 114);
        assert(m[k] == e);
        assert(e.offset == index[k].offset);
        assert(e.key_len == index[k].key_len);
        assert(e.field_len == index[k].field_len);
    }
    assert(m =~= index);
}

/// A run of zero bytes at a record boundary is passed over, by the decoder and by the scan that
/// rebuilds the index.
pub proof fn lemma_zeros_skipped(buf: Seq<u8>, p: int, n: nat)
    requires
        0 <= p,
        p + n <= buf.len(),
        buf.subrange(p, p + n) == spec_zeros(n),
    ensures
        spec_decode_records(buf, p) == spec_decode_records(buf, p + n),
        spec_index_from_db_records(buf, p) == spec_index_from_db_records(buf, p + n),
    decreases n,
{
    if n > 0 {
        assert(buf[p] == buf.subrange(p, p + n)[0]);
        assert(spec_is_tombstone(buf, p));
        assert(buf.subrange(p + 1, p + n) =~= spec_zeros((n - 1) as nat)) by {
            assert forall|i: int| 0 <= i < n - 1 implies #[trigger] buf.subrange(p + 1, p + n)[i] == 0u8 by {
                assert(buf.subrange(p + 1, p + n)[i] == buf.subrange(p, p + n)[i + 1]);
            }
        }
        lemma_zeros_skipped(buf, p + 1, (n - 1) as nat);
    }
}

/// A flush never shrinks the data file: appends lengthen it, and deleted records are written
/// over bytes it has.
pub proof fn law_flush_never_shrinks(buf: Seq<u8>, ops: Seq<FlushOpV>)
    ensures
        spec_flushed_file(buf, ops).len() >= buf.len(),
    decreases ops.len(),
{
    if ops.len() > 0 {
        law_flush_never_shrinks(buf, ops.drop_last());
        let prev = spec_flushed_file(buf, ops.drop_last());
        if let FlushOpV::Tombstone { offset, bytes, .. } = ops.last() {
            lemma_write_at_len(prev, offset as int, bytes);
        }
    }
}

/// The data file of a new database after one flush of the log `es` and the record count `n`:
/// the header of `meta`, the flush's writes, then the count written into the header.
pub open spec fn spec_first_flush_file(meta: DbMetaV, es: Seq<WalEntryV>, n: u64) -> Seq<u8> {
    let ops = spec_flush_ops(net_entries(es), Map::empty());
    spec_write_at(
        spec_flushed_file(spec_db_header_bytes(meta), ops),
        RECORD_COUNT_OFFSET as int,
        vstd::bytes::spec_u64_to_le_bytes(n),
    )
}

/// The index a new database holds after one flush of the log `es`.
pub open spec fn spec_first_flush_index(meta: DbMetaV, es: Seq<WalEntryV>) -> Map<Seq<u8>, IndexEntry> {
    let ops = spec_flush_ops(net_entries(es), Map::empty());
    spec_flushed_index(Map::empty(), ops, spec_append_offsets(spec_db_header_bytes(meta), ops))
}

/// A delete made after an earlier flush survives a reopen. A new database flushes the log `es1`
/// (writing the record count `n1`), then the log `es2` over the index the first flush left
/// (writing `n2`): the file then decodes to the values of `es1` and then `es2` applied in order.
/// In particular, a key whose last entry in `es2` is a delete has no value on reopen. Needs each
/// logged set encodable and the files to fit `u64` offsets.
pub proof fn law_delete_after_flush_survives_reopen(
    meta: DbMetaV,
    es1: Seq<WalEntryV>,
    n1: u64,
    es2: Seq<WalEntryV>,
    n2: u64,
)
    requires
        forall|i: int| 0 <= i < es1.len() ==> writable(#[trigger] es1[i]),
        forall|i: int| 0 <= i < es2.len() ==> writable(#[trigger] es2[i]),
        spec_flushed_file(spec_db_header_bytes(meta), spec_flush_ops(net_entries(es1), Map::empty())).len()
            <= u64::MAX,
        spec_flushed_file(
            spec_first_flush_file(meta, es1, n1),
            spec_flush_ops(net_entries(es2), spec_first_flush_index(meta, es1)),
        ).len() <= u64::MAX,
    ensures
        ({
            let file = spec_write_at(
                spec_flushed_file(
                    spec_first_flush_file(meta, es1, n1),
                    spec_flush_ops(net_entries(es2), spec_first_flush_index(meta, es1)),
                ),
                RECORD_COUNT_OFFSET as int,
                vstd::bytes::spec_u64_to_le_bytes(n2),
            );
            let values = apply_entries(apply_entries(Map::empty(), es1), es2);
            &&& spec_decode_db_file(file) matches Ok((_, pairs)) && insert_all(Map::empty(), pairs) == values
            &&& forall|k: Seq<u8>|
                (exists|i: int| 0 <= i < es2.len() && is_last(es2, i) && #[trigger] es2[i] == WalEntryV::Delete(k))
                    ==> !values.contains_key(k)
        }),
{
    let h = spec_db_header_bytes(meta);
    let empty_v = Map::<Seq<u8>, FieldV>::empty();
    let empty_i = Map::<Seq<u8>, IndexEntry>::empty();
    let empty_p = Map::<Seq<u8>, int>::empty();
    law_new_file_on_disk(meta);
    let net1 = net_entries(es1);
    lemma_net_entries_apply(empty_v, es1);
    lemma_net_prefix_from(es1, es1.len() as int);
    assert forall|j: int| 0 <= j < net1.len() implies writable(#[trigger] net1[j]) by {
        assert(last_among(es1, es1.len() as int, net1[j]));
        let i = choose|i: int| 0 <= i < es1.len() && is_last(es1, i) && #[trigger] es1[i] == net1[j];
        assert(writable(es1[i]));
    }
    let r1 = lemma_flush_entries(h, meta, Seq::empty(), empty_p, empty_v, empty_i, net1);
    let ss1 = r1.0;
    let pos1 = r1.1;
    let ops1 = spec_flush_ops(net1, empty_i);
    let v1 = apply_entries(empty_v, es1);
    let index1 = spec_first_flush_index(meta, es1);
    law_record_count_on_disk(spec_flushed_file(h, ops1), meta, ss1, pos1, v1, index1, n1);
    let meta1 = DbMetaV { record_count: n1, ..meta };
    let file1 = spec_first_flush_file(meta, es1, n1);
    // Each key has at most one live record after the first flush: all its records were appended,
    // for distinct keys.
    let net2 = net_entries(es2);
    assert forall|j: int|
        0 <= j < net2.len() && (#[trigger] net2[j] is Delete) && index1.contains_key(net2[j].key()) implies only_live(
        ss1,
        pos1[net2[j].key()],
        net2[j].key(),
    ) by {
        let k = net2[j].key();
        assert(indexes(ss1, pos1[k], k, index1[k]));
        assert forall|x: int| 0 <= x < pos1[k] implies !live_of(#[trigger] ss1[x], k) by {
            if live_of(ss1[x], k) {
                assert(ss1[x]->Live_0 != ss1[pos1[k]]->Live_0);
            }
        }
    }
    law_reopen_after_flush(file1, meta1, ss1, pos1, v1, index1, es2, n2);
    let values = apply_entries(v1, es2);
    law_replay_consistent(v1, es2);
    assert forall|k: Seq<u8>|
        (exists|i: int| 0 <= i < es2.len() && is_last(es2, i) && #[trigger] es2[i] == WalEntryV::Delete(k))
            implies !values.contains_key(k) by {
        let i = choose|i: int| 0 <= i < es2.len() && is_last(es2, i) && #[trigger] es2[i] == WalEntryV::Delete(k);
        assert(is_last(es2, i));
    }
}

} // verus!
