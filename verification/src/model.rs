//! The mathematical model of the engine.
//!
//! Committed index state is modelled as a history of versions per key: a
//! version carries the commit sequence number that made it visible, and an
//! absent value marks a removal.  A reader at sequence number `s` sees, for
//! each key, the latest version whose sequence number is at most `s`.
//! Transactions buffer their writes privately; a buffered log is applied to
//! a map by `overlay`.

use vstd::prelude::*;

use crate::keys::{same_variant, key_lt_v, lemma_key_lt_asym, KeyV};

verus! {

/// One committed version of a key: the commit that wrote it, and the value
/// it left (`None` marks a removal).
pub struct VersionV {
    pub seq: int,
    pub val: Option<Seq<u8>>,
}

/// The version history of one key, oldest first.
pub struct EntryV {
    pub key: KeyV,
    pub versions: Seq<VersionV>,
}

/// One index: its key variant (as an exemplar key value), its entries in
/// ascending key order, and whether a handle to it is open.
pub struct IndexV {
    pub key_type: KeyV,
    pub entries: Seq<EntryV>,
    pub is_open: bool,
}

/// One buffered write of a transaction: target index, key, and the value
/// left by the write (`None` marks a removal).
pub struct WriteV {
    pub iname: Seq<char>,
    pub key: KeyV,
    pub val: Option<Seq<u8>>,
}

/// One active transaction: its id, its snapshot marker, and its private
/// write buffer, keyed by (index name, key).
pub struct TxnV {
    pub id: int,
    pub snapshot: int,
    pub writes: Seq<WriteV>,
}

/// One registered index under its name.
pub struct NamedIndexV {
    pub name: Seq<char>,
    pub index: IndexV,
}

/// The whole database: the global commit sequence number, the next unused
/// transaction id, the registry of named indices, and the active
/// transactions.
pub struct DbV {
    pub seq: int,
    pub next_txn: int,
    pub indices: Seq<NamedIndexV>,
    pub txns: Seq<TxnV>,
}

// ---------------------------------------------------------------------------
// Version histories
// ---------------------------------------------------------------------------

/// A version history is nonempty, strictly increasing in sequence number,
/// and stays within `(0, hi]`.
pub open spec fn versions_wf(vs: Seq<VersionV>, hi: int) -> bool {
    &&& vs.len() > 0
    &&& forall|i: int| 0 <= i < vs.len() ==> 1 <= #[trigger] vs[i].seq <= hi
    &&& forall|i: int, j: int| 0 <= i < j < vs.len() ==> #[trigger] vs[i].seq < #[trigger] vs[j].seq
}

/// The value a reader at sequence number `s` sees in the history `vs`:
/// the value of the latest version with sequence number at most `s`.
pub open spec fn val_at(vs: Seq<VersionV>, s: int) -> Option<Seq<u8>>
    decreases vs.len(),
{
    if vs.len() == 0 {
        None::<Seq<u8>>
    } else if vs.last().seq <= s {
        vs.last().val
    } else {
        val_at(vs.drop_last(), s)
    }
}

/// Appending a version newer than the whole history changes only what
/// readers at or above its sequence number see.
pub proof fn lemma_val_at_push(vs: Seq<VersionV>, v: VersionV, s: int)
    ensures
        s >= v.seq ==> val_at(vs.push(v), s) == v.val,
        s < v.seq ==> val_at(vs.push(v), s) == val_at(vs, s),
{
    assert(vs.push(v).last() == v);
    assert(vs.push(v).drop_last() =~= vs);
}

// ---------------------------------------------------------------------------
// Entries of one index
// ---------------------------------------------------------------------------

pub open spec fn entry_keys_unique(es: Seq<EntryV>) -> bool {
    forall|i: int, j: int| 0 <= i < j < es.len() ==> #[trigger] es[i].key != #[trigger] es[j].key
}

pub open spec fn entries_sorted(es: Seq<EntryV>) -> bool {
    forall|i: int, j: int| 0 <= i < j < es.len() ==> key_lt_v(#[trigger] es[i].key, #[trigger] es[j].key)
}

pub proof fn lemma_sorted_unique(es: Seq<EntryV>)
    requires
        entries_sorted(es),
    ensures
        entry_keys_unique(es),
{
    assert forall|i: int, j: int| 0 <= i < j < es.len() implies #[trigger] es[i].key != #[trigger] es[j].key by {
        lemma_key_lt_asym(es[i].key, es[j].key);
    }
}

/// Some entry holds the key.
pub open spec fn has_key(es: Seq<EntryV>, k: KeyV) -> bool {
    exists|i: int| 0 <= i < es.len() && #[trigger] es[i].key == k
}

/// The position of the entry holding `k` (meaningful only when unique and
/// present).
pub open spec fn entry_pos(es: Seq<EntryV>, k: KeyV) -> int {
    choose|i: int| 0 <= i < es.len() && #[trigger] es[i].key == k
}

pub open spec fn entry_for(es: Seq<EntryV>, k: KeyV) -> EntryV {
    es[entry_pos(es, k)]
}

pub proof fn lemma_entry_pos(es: Seq<EntryV>, k: KeyV, i: int)
    requires
        entry_keys_unique(es),
        0 <= i < es.len(),
        es[i].key == k,
    ensures
        has_key(es, k),
        entry_pos(es, k) == i,
        entry_for(es, k) == es[i],
{
    assert(has_key(es, k));
    let j = entry_pos(es, k);
    assert(0 <= j < es.len() && es[j].key == k);
}

// ---------------------------------------------------------------------------
// The map an index presents at a sequence number
// ---------------------------------------------------------------------------

/// The key-to-value map of index `ix` as a reader at sequence number `s`
/// sees it.
pub open spec fn idx_map_at(ix: IndexV, s: int) -> Map<KeyV, Seq<u8>> {
    Map::new(
        |k: KeyV| has_key(ix.entries, k) && val_at(entry_for(ix.entries, k).versions, s) is Some,
        |k: KeyV| val_at(entry_for(ix.entries, k).versions, s).unwrap(),
    )
}

/// Some commit after `s` wrote (or removed) key `k` in index `ix`.
pub open spec fn key_written_after(ix: IndexV, k: KeyV, s: int) -> bool {
    exists|i: int, j: int|
        0 <= i < ix.entries.len() && (#[trigger] ix.entries[i]).key == k && 0 <= j
            < ix.entries[i].versions.len() && (#[trigger] ix.entries[i].versions[j]).seq > s
}

/// An index is well formed up to sequence number `hi`: entries in strictly
/// ascending key order, every key of the index's variant, every version
/// history well formed.
pub open spec fn index_wf(ix: IndexV, hi: int) -> bool {
    &&& entries_sorted(ix.entries)
    &&& forall|i: int| 0 <= i < ix.entries.len() ==> same_variant(
        (#[trigger] ix.entries[i]).key,
        ix.key_type,
    )
    &&& forall|i: int| 0 <= i < ix.entries.len() ==> versions_wf(
        (#[trigger] ix.entries[i]).versions,
        hi,
    )
}

// ---------------------------------------------------------------------------
// Write buffers
// ---------------------------------------------------------------------------

/// At most one buffered write per (index name, key).
pub open spec fn writes_unique(ws: Seq<WriteV>) -> bool {
    forall|i: int, j: int|
        0 <= i < j < ws.len() ==> !((#[trigger] ws[i]).iname == (#[trigger] ws[j]).iname
            && ws[i].key == ws[j].key)
}

/// The buffer holds a write for key `k` of index `n`.
pub open spec fn has_write(ws: Seq<WriteV>, n: Seq<char>, k: KeyV) -> bool {
    exists|i: int| 0 <= i < ws.len() && (#[trigger] ws[i]).iname == n && ws[i].key == k
}

/// The buffer holds some write against index `n`.
pub open spec fn touches_index(ws: Seq<WriteV>, n: Seq<char>) -> bool {
    exists|i: int| 0 <= i < ws.len() && (#[trigger] ws[i]).iname == n
}

pub open spec fn write_pos(ws: Seq<WriteV>, n: Seq<char>, k: KeyV) -> int {
    choose|i: int| 0 <= i < ws.len() && (#[trigger] ws[i]).iname == n && ws[i].key == k
}

pub open spec fn write_for(ws: Seq<WriteV>, n: Seq<char>, k: KeyV) -> WriteV {
    ws[write_pos(ws, n, k)]
}

pub proof fn lemma_write_pos(ws: Seq<WriteV>, n: Seq<char>, k: KeyV, i: int)
    requires
        writes_unique(ws),
        0 <= i < ws.len(),
        ws[i].iname == n,
        ws[i].key == k,
    ensures
        has_write(ws, n, k),
        write_pos(ws, n, k) == i,
        write_for(ws, n, k) == ws[i],
{
    assert(has_write(ws, n, k));
    let j = write_pos(ws, n, k);
    assert(0 <= j < ws.len() && ws[j].iname == n && ws[j].key == k);
}

/// The map that results from applying, in order, the buffered writes
/// against index `n` on top of `m`.
pub open spec fn overlay(m: Map<KeyV, Seq<u8>>, ws: Seq<WriteV>, n: Seq<char>) -> Map<
    KeyV,
    Seq<u8>,
>
    decreases ws.len(),
{
    if ws.len() == 0 {
        m
    } else {
        let m1 = if ws[0].iname == n {
            match ws[0].val {
                Some(v) => m.insert(ws[0].key, v),
                None => m.remove(ws[0].key),
            }
        } else {
            m
        };
        overlay(m1, ws.drop_first(), n)
    }
}

/// A key the buffer does not write reads through the overlay unchanged.
pub proof fn lemma_overlay_unwritten(m: Map<KeyV, Seq<u8>>, ws: Seq<WriteV>, n: Seq<char>, k: KeyV)
    requires
        !has_write(ws, n, k),
    ensures
        overlay(m, ws, n).contains_key(k) == m.contains_key(k),
        m.contains_key(k) ==> overlay(m, ws, n)[k] == m[k],
    decreases ws.len(),
{
    if ws.len() > 0 {
        assert(!(ws[0].iname == n && ws[0].key == k));
        assert forall|i: int| 0 <= i < ws.drop_first().len() implies !((#[trigger] ws.drop_first()[i]).iname
            == n && ws.drop_first()[i].key == k) by {
            assert(ws.drop_first()[i] == ws[i + 1]);
        }
        let m1 = if ws[0].iname == n {
            match ws[0].val {
                Some(v) => m.insert(ws[0].key, v),
                None => m.remove(ws[0].key),
            }
        } else {
            m
        };
        lemma_overlay_unwritten(m1, ws.drop_first(), n, k);
    }
}

/// A key the buffer writes reads, through the overlay, exactly what its
/// (unique) buffered write left.
pub proof fn lemma_overlay_written(m: Map<KeyV, Seq<u8>>, ws: Seq<WriteV>, n: Seq<char>, k: KeyV)
    requires
        writes_unique(ws),
        has_write(ws, n, k),
    ensures
        match write_for(ws, n, k).val {
            Some(v) => overlay(m, ws, n).contains_key(k) && overlay(m, ws, n)[k] == v,
            None => !overlay(m, ws, n).contains_key(k),
        },
    decreases ws.len(),
{
    let p = write_pos(ws, n, k);
    assert(0 <= p < ws.len() && ws[p].iname == n && ws[p].key == k);
    let m1 = if ws[0].iname == n {
        match ws[0].val {
            Some(v) => m.insert(ws[0].key, v),
            None => m.remove(ws[0].key),
        }
    } else {
        m
    };
    assert forall|i: int, j: int|
        0 <= i < j < ws.drop_first().len() implies !((#[trigger] ws.drop_first()[i]).iname
        == (#[trigger] ws.drop_first()[j]).iname && ws.drop_first()[i].key
        == ws.drop_first()[j].key) by {
        assert(ws.drop_first()[i] == ws[i + 1]);
        assert(ws.drop_first()[j] == ws[j + 1]);
    }
    if p == 0 {
        assert forall|i: int| 0 <= i < ws.drop_first().len() implies !((#[trigger] ws.drop_first()[i]).iname
            == n && ws.drop_first()[i].key == k) by {
            assert(ws.drop_first()[i] == ws[i + 1]);
        }
        lemma_overlay_unwritten(m1, ws.drop_first(), n, k);
    } else {
        assert(ws.drop_first()[p - 1] == ws[p]);
        lemma_write_pos(ws.drop_first(), n, k, p - 1);
        lemma_overlay_written(m1, ws.drop_first(), n, k);
    }
}

// ---------------------------------------------------------------------------
// Registry and transaction lookup
// ---------------------------------------------------------------------------

pub open spec fn names_unique(ixs: Seq<NamedIndexV>) -> bool {
    forall|i: int, j: int|
        0 <= i < j < ixs.len() ==> (#[trigger] ixs[i]).name != (#[trigger] ixs[j]).name
}

pub open spec fn has_index(ixs: Seq<NamedIndexV>, n: Seq<char>) -> bool {
    exists|i: int| 0 <= i < ixs.len() && (#[trigger] ixs[i]).name == n
}

pub open spec fn index_pos(ixs: Seq<NamedIndexV>, n: Seq<char>) -> int {
    choose|i: int| 0 <= i < ixs.len() && (#[trigger] ixs[i]).name == n
}

pub open spec fn index_of(ixs: Seq<NamedIndexV>, n: Seq<char>) -> IndexV {
    ixs[index_pos(ixs, n)].index
}

pub proof fn lemma_index_pos(ixs: Seq<NamedIndexV>, n: Seq<char>, i: int)
    requires
        names_unique(ixs),
        0 <= i < ixs.len(),
        ixs[i].name == n,
    ensures
        has_index(ixs, n),
        index_pos(ixs, n) == i,
        index_of(ixs, n) == ixs[i].index,
{
    assert(has_index(ixs, n));
    let j = index_pos(ixs, n);
    assert(0 <= j < ixs.len() && ixs[j].name == n);
}

pub open spec fn txn_ids_unique(ts: Seq<TxnV>) -> bool {
    forall|i: int, j: int| 0 <= i < j < ts.len() ==> (#[trigger] ts[i]).id != (#[trigger] ts[j]).id
}

pub open spec fn has_txn(ts: Seq<TxnV>, id: int) -> bool {
    exists|i: int| 0 <= i < ts.len() && (#[trigger] ts[i]).id == id
}

pub open spec fn txn_pos(ts: Seq<TxnV>, id: int) -> int {
    choose|i: int| 0 <= i < ts.len() && (#[trigger] ts[i]).id == id
}

pub open spec fn txn_of(ts: Seq<TxnV>, id: int) -> TxnV {
    ts[txn_pos(ts, id)]
}

pub proof fn lemma_txn_pos(ts: Seq<TxnV>, id: int, i: int)
    requires
        txn_ids_unique(ts),
        0 <= i < ts.len(),
        ts[i].id == id,
    ensures
        has_txn(ts, id),
        txn_pos(ts, id) == i,
        txn_of(ts, id) == ts[i],
{
    assert(has_txn(ts, id));
    let j = txn_pos(ts, id);
    assert(0 <= j < ts.len() && ts[j].id == id);
}

// ---------------------------------------------------------------------------
// Whole-database well-formedness and views
// ---------------------------------------------------------------------------

/// A transaction is well formed against the database it runs in.
pub open spec fn txn_wf(db: DbV, t: TxnV) -> bool {
    &&& 0 <= t.id < db.next_txn
    &&& 0 <= t.snapshot <= db.seq
    &&& writes_unique(t.writes)
    &&& forall|i: int|
        0 <= i < t.writes.len() ==> has_index(db.indices, (#[trigger] t.writes[i]).iname)
            && same_variant(t.writes[i].key, index_of(db.indices, t.writes[i].iname).key_type)
}

pub open spec fn db_wf(db: DbV) -> bool {
    &&& 0 <= db.seq <= u64::MAX
    &&& 0 <= db.next_txn <= u64::MAX
    &&& names_unique(db.indices)
    &&& forall|i: int| 0 <= i < db.indices.len() ==> index_wf((#[trigger] db.indices[i]).index, db.seq)
    &&& txn_ids_unique(db.txns)
    &&& forall|i: int| 0 <= i < db.txns.len() ==> txn_wf(db, #[trigger] db.txns[i])
}

/// The latest committed map of index `n`.
pub open spec fn committed_map(db: DbV, n: Seq<char>) -> Map<KeyV, Seq<u8>> {
    idx_map_at(index_of(db.indices, n), db.seq)
}

/// The map transaction `t` sees in index `n`: the committed state at its
/// snapshot marker, overlaid with its own buffered writes.
pub open spec fn txn_map(db: DbV, t: TxnV, n: Seq<char>) -> Map<KeyV, Seq<u8>> {
    overlay(idx_map_at(index_of(db.indices, n), t.snapshot), t.writes, n)
}

/// The map a reader of index `n` sees: the latest committed state without a
/// transaction, the transaction's own view with one.
pub open spec fn read_map(db: DbV, n: Seq<char>, tid: Option<int>) -> Map<KeyV, Seq<u8>> {
    match tid {
        None => committed_map(db, n),
        Some(id) => txn_map(db, txn_of(db.txns, id), n),
    }
}

/// Commit-time validation fails: some key the transaction wrote was also
/// written by a commit after the transaction's snapshot.
pub open spec fn txn_conflicts(db: DbV, t: TxnV) -> bool {
    exists|i: int|
        0 <= i < t.writes.len() && key_written_after(
            index_of(db.indices, (#[trigger] t.writes[i]).iname),
            t.writes[i].key,
            t.snapshot,
        )
}

/// The transaction argument of a read or write, as a model value.
pub open spec fn tid_of(t: Option<u64>) -> Option<int> {
    match t {
        None => None,
        Some(id) => Some(id as int),
    }
}

/// No transaction, or one that is still active.
pub open spec fn txn_opt_valid(db: DbV, t: Option<int>) -> bool {
    match t {
        None => true,
        Some(id) => has_txn(db.txns, id),
    }
}

// ---------------------------------------------------------------------------
// Range scans
// ---------------------------------------------------------------------------

/// Whether `k` falls between `lo` and `hi`, each bound inclusive or
/// exclusive as configured.
pub open spec fn in_range(k: KeyV, lo: KeyV, hi: KeyV, incl_lo: bool, incl_hi: bool) -> bool {
    (if incl_lo {
        !key_lt_v(k, lo)
    } else {
        key_lt_v(lo, k)
    }) && (if incl_hi {
        !key_lt_v(hi, k)
    } else {
        key_lt_v(k, hi)
    })
}

/// Record views in strictly ascending key order.
pub open spec fn recs_sorted(rs: Seq<crate::keys::RecordV>) -> bool {
    forall|i: int, j: int|
        0 <= i < j < rs.len() ==> key_lt_v((#[trigger] rs[i]).key, (#[trigger] rs[j]).key)
}

/// Some record in the sequence carries key `k`.
pub open spec fn recs_has(rs: Seq<crate::keys::RecordV>, k: KeyV) -> bool {
    exists|i: int| 0 <= i < rs.len() && (#[trigger] rs[i]).key == k
}

// ---------------------------------------------------------------------------
// Further facts about the model
// ---------------------------------------------------------------------------

pub proof fn lemma_index_wf_mono(ix: IndexV, h1: int, h2: int)
    requires
        index_wf(ix, h1),
        h1 <= h2,
    ensures
        index_wf(ix, h2),
{
    assert forall|i: int| 0 <= i < ix.entries.len() implies versions_wf(
        (#[trigger] ix.entries[i]).versions,
        h2,
    ) by {
        assert(versions_wf(ix.entries[i].versions, h1));
    }
}

/// A well-formed index has no versions above `m`, so every later snapshot
/// sees the same map.
pub proof fn lemma_idx_map_high(ix: IndexV, m: int, s2: int)
    requires
        index_wf(ix, m),
        m <= s2,
    ensures
        idx_map_at(ix, s2) == idx_map_at(ix, m),
{
    lemma_sorted_unique(ix.entries);
    assert forall|k: KeyV| has_key(ix.entries, k) implies val_at(entry_for(ix.entries, k).versions, s2)
        == val_at(entry_for(ix.entries, k).versions, m) by {
        let i = entry_pos(ix.entries, k);
        assert(0 <= i < ix.entries.len() && ix.entries[i].key == k);
        let vs = ix.entries[i].versions;
        assert(versions_wf(vs, m));
        assert(vs.last().seq <= m);
    }
    assert(idx_map_at(ix, s2) =~= idx_map_at(ix, m));
}

/// Appending one write to a buffer applies it last.
pub proof fn lemma_overlay_push(m: Map<KeyV, Seq<u8>>, ws: Seq<WriteV>, w: WriteV, n: Seq<char>)
    ensures
        overlay(m, ws.push(w), n) == (if w.iname == n {
            match w.val {
                Some(v) => overlay(m, ws, n).insert(w.key, v),
                None => overlay(m, ws, n).remove(w.key),
            }
        } else {
            overlay(m, ws, n)
        }),
    decreases ws.len(),
{
    let ws2 = ws.push(w);
    if ws.len() == 0 {
        assert(ws2[0] == w);
        assert(ws2.drop_first() =~= Seq::<WriteV>::empty());
        let m1 = if w.iname == n {
            match w.val {
                Some(v) => m.insert(w.key, v),
                None => m.remove(w.key),
            }
        } else {
            m
        };
        assert(overlay(m1, ws2.drop_first(), n) == m1);
        assert(overlay(m, ws2, n) == m1);
        assert(overlay(m, ws, n) == m);
    } else {
        assert(ws2[0] == ws[0]);
        assert(ws2.drop_first() =~= ws.drop_first().push(w));
        let m1 = if ws[0].iname == n {
            match ws[0].val {
                Some(v) => m.insert(ws[0].key, v),
                None => m.remove(ws[0].key),
            }
        } else {
            m
        };
        assert(overlay(m, ws2, n) == overlay(m1, ws2.drop_first(), n));
        assert(overlay(m, ws, n) == overlay(m1, ws.drop_first(), n));
        lemma_overlay_push(m1, ws.drop_first(), w, n);
    }
}

/// The buffer with its write for `(n, k)` replaced, or appended if absent:
/// the undo/redo log is keyed by (index name, key).
pub open spec fn set_write(ws: Seq<WriteV>, n: Seq<char>, k: KeyV, val: Option<Seq<u8>>) -> Seq<
    WriteV,
> {
    if has_write(ws, n, k) {
        ws.update(write_pos(ws, n, k), WriteV { iname: n, key: k, val })
    } else {
        ws.push(WriteV { iname: n, key: k, val })
    }
}

pub proof fn lemma_set_write(ws: Seq<WriteV>, n: Seq<char>, k: KeyV, val: Option<Seq<u8>>)
    requires
        writes_unique(ws),
    ensures
        writes_unique(set_write(ws, n, k, val)),
        forall|n2: Seq<char>, k2: KeyV|
            has_write(set_write(ws, n, k, val), n2, k2) == (has_write(ws, n2, k2) || (n2 == n && k2
                == k)),
        has_write(set_write(ws, n, k, val), n, k),
        write_for(set_write(ws, n, k, val), n, k) == (WriteV { iname: n, key: k, val }),
        forall|n2: Seq<char>, k2: KeyV|
            has_write(ws, n2, k2) && !(n2 == n && k2 == k) ==> has_write(
                set_write(ws, n, k, val),
                n2,
                k2,
            ) && write_for(set_write(ws, n, k, val), n2, k2) == write_for(ws, n2, k2),
        forall|n2: Seq<char>|
            touches_index(set_write(ws, n, k, val), n2) == (touches_index(ws, n2) || n2 == n),
{
    let w0 = WriteV { iname: n, key: k, val };
    let ws2 = set_write(ws, n, k, val);
    if has_write(ws, n, k) {
        let p = write_pos(ws, n, k);
        assert(0 <= p < ws.len() && ws[p].iname == n && ws[p].key == k);
        assert forall|i: int, j: int|
            0 <= i < j < ws2.len() implies !((#[trigger] ws2[i]).iname == (#[trigger] ws2[j]).iname
            && ws2[i].key == ws2[j].key) by {
            assert(ws2[i].iname == ws[i].iname && ws2[i].key == ws[i].key);
            assert(ws2[j].iname == ws[j].iname && ws2[j].key == ws[j].key);
        }
        lemma_write_pos(ws2, n, k, p);
        assert forall|n2: Seq<char>, k2: KeyV|
            has_write(ws2, n2, k2) == (has_write(ws, n2, k2) || (n2 == n && k2 == k)) by {
            if has_write(ws, n2, k2) {
                let i = write_pos(ws, n2, k2);
                assert(0 <= i < ws.len() && ws[i].iname == n2 && ws[i].key == k2);
                assert(ws2[i].iname == n2 && ws2[i].key == k2);
                assert(has_write(ws2, n2, k2));
            }
            if has_write(ws2, n2, k2) {
                let i = write_pos(ws2, n2, k2);
                assert(0 <= i < ws2.len() && ws2[i].iname == n2 && ws2[i].key == k2);
                assert(ws[i].iname == n2 && ws[i].key == k2);
                assert(has_write(ws, n2, k2));
            }
        }
        assert forall|n2: Seq<char>, k2: KeyV|
            has_write(ws, n2, k2) && !(n2 == n && k2 == k) implies has_write(ws2, n2, k2)
            && write_for(ws2, n2, k2) == write_for(ws, n2, k2) by {
            let i = write_pos(ws, n2, k2);
            assert(0 <= i < ws.len() && ws[i].iname == n2 && ws[i].key == k2);
            assert(i != p);
            assert(ws2[i] == ws[i]);
            lemma_write_pos(ws2, n2, k2, i);
        }
        assert forall|n2: Seq<char>|
            touches_index(ws2, n2) == (touches_index(ws, n2) || n2 == n) by {
            if touches_index(ws, n2) {
                let i = choose|i: int| 0 <= i < ws.len() && (#[trigger] ws[i]).iname == n2;
                assert(ws2[i].iname == n2);
            }
            if touches_index(ws2, n2) {
                let i = choose|i: int| 0 <= i < ws2.len() && (#[trigger] ws2[i]).iname == n2;
                if i != p {
                    assert(ws[i].iname == n2);
                }
            }
            assert(ws2[p].iname == n);
        }
    } else {
        assert(ws2 == ws.push(w0));
        assert forall|i: int, j: int|
            0 <= i < j < ws2.len() implies !((#[trigger] ws2[i]).iname == (#[trigger] ws2[j]).iname
            && ws2[i].key == ws2[j].key) by {
            if j < ws.len() {
                assert(ws2[i] == ws[i] && ws2[j] == ws[j]);
            } else {
                assert(ws2[j] == w0);
                assert(ws2[i] == ws[i]);
                if ws[i].iname == n && ws[i].key == k {
                    assert(has_write(ws, n, k));
                }
            }
        }
        lemma_write_pos(ws2, n, k, ws.len() as int);
        assert forall|n2: Seq<char>, k2: KeyV|
            has_write(ws2, n2, k2) == (has_write(ws, n2, k2) || (n2 == n && k2 == k)) by {
            if has_write(ws, n2, k2) {
                let i = write_pos(ws, n2, k2);
                assert(0 <= i < ws.len() && ws[i].iname == n2 && ws[i].key == k2);
                assert(ws2[i].iname == n2 && ws2[i].key == k2);
            }
            if has_write(ws2, n2, k2) {
                let i = write_pos(ws2, n2, k2);
                assert(0 <= i < ws2.len() && ws2[i].iname == n2 && ws2[i].key == k2);
                if i < ws.len() {
                    assert(ws[i].iname == n2 && ws[i].key == k2);
                }
            }
        }
        assert forall|n2: Seq<char>, k2: KeyV|
            has_write(ws, n2, k2) && !(n2 == n && k2 == k) implies has_write(ws2, n2, k2)
            && write_for(ws2, n2, k2) == write_for(ws, n2, k2) by {
            let i = write_pos(ws, n2, k2);
            assert(0 <= i < ws.len() && ws[i].iname == n2 && ws[i].key == k2);
            assert(ws2[i] == ws[i]);
            lemma_write_pos(ws2, n2, k2, i);
        }
        assert forall|n2: Seq<char>|
            touches_index(ws2, n2) == (touches_index(ws, n2) || n2 == n) by {
            if touches_index(ws, n2) {
                let i = choose|i: int| 0 <= i < ws.len() && (#[trigger] ws[i]).iname == n2;
                assert(ws2[i].iname == n2);
            }
            if touches_index(ws2, n2) {
                let i = choose|i: int| 0 <= i < ws2.len() && (#[trigger] ws2[i]).iname == n2;
                if i < ws.len() {
                    assert(ws[i].iname == n2);
                }
            }
            assert(ws2[ws.len() as int].iname == n);
        }
    }
}

/// Replacing the buffered write for `(n, k)` replaces the key's overlaid
/// value, and no other index's overlay notices.
pub proof fn lemma_overlay_set_write(
    m: Map<KeyV, Seq<u8>>,
    ws: Seq<WriteV>,
    n: Seq<char>,
    k: KeyV,
    val: Option<Seq<u8>>,
)
    requires
        writes_unique(ws),
    ensures
        overlay(m, set_write(ws, n, k, val), n) == (match val {
            Some(v) => overlay(m, ws, n).insert(k, v),
            None => overlay(m, ws, n).remove(k),
        }),
        forall|m2: Map<KeyV, Seq<u8>>, n2: Seq<char>|
            n2 != n ==> overlay(m2, set_write(ws, n, k, val), n2) == overlay(m2, ws, n2),
{
    let ws2 = set_write(ws, n, k, val);
    lemma_set_write(ws, n, k, val);
    let t = overlay(m, ws2, n);
    let base = overlay(m, ws, n);
    let target = (match val {
        Some(v) => base.insert(k, v),
        None => base.remove(k),
    });
    assert forall|k2: KeyV| #[trigger] t.dom().contains(k2) == target.dom().contains(k2) && (
    t.dom().contains(k2) ==> t[k2] == target[k2]) by {
        if k2 == k {
            lemma_overlay_written(m, ws2, n, k);
        } else {
            if has_write(ws, n, k2) {
                lemma_overlay_written(m, ws, n, k2);
                lemma_overlay_written(m, ws2, n, k2);
            } else {
                lemma_overlay_unwritten(m, ws, n, k2);
                lemma_overlay_unwritten(m, ws2, n, k2);
            }
        }
    }
    assert(t =~= target);
    assert forall|m2: Map<KeyV, Seq<u8>>, n2: Seq<char>| n2 != n implies overlay(m2, ws2, n2)
        == overlay(m2, ws, n2) by {
        let t2 = overlay(m2, ws2, n2);
        let b2 = overlay(m2, ws, n2);
        assert forall|k2: KeyV| #[trigger] t2.dom().contains(k2) == b2.dom().contains(k2) && (
        t2.dom().contains(k2) ==> t2[k2] == b2[k2]) by {
            if has_write(ws, n2, k2) {
                lemma_overlay_written(m2, ws, n2, k2);
                lemma_overlay_written(m2, ws2, n2, k2);
            } else {
                lemma_overlay_unwritten(m2, ws, n2, k2);
                lemma_overlay_unwritten(m2, ws2, n2, k2);
            }
        }
        assert(t2 =~= b2);
    }
}

// ---------------------------------------------------------------------------
// Frame predicates for the operations
// ---------------------------------------------------------------------------

/// The two registries list the same names, key variants and open flags, in
/// the same order.
pub open spec fn registry_shape_eq(a: Seq<NamedIndexV>, b: Seq<NamedIndexV>) -> bool {
    &&& a.len() == b.len()
    &&& forall|i: int|
        0 <= i < a.len() ==> (#[trigger] b[i]).name == a[i].name && b[i].index.key_type
            == a[i].index.key_type && b[i].index.is_open == a[i].index.is_open
}

/// Same shape, and every snapshot up to `hi` reads the same maps: commits
/// never rewrite history.
pub open spec fn history_preserved(a: Seq<NamedIndexV>, b: Seq<NamedIndexV>, hi: int) -> bool {
    &&& registry_shape_eq(a, b)
    &&& forall|i: int, s2: int|
        0 <= i < a.len() && 0 <= s2 <= hi ==> #[trigger] idx_map_at(b[i].index, s2) == idx_map_at(
            a[i].index,
            s2,
        )
}

pub proof fn lemma_registry_shape(a: Seq<NamedIndexV>, b: Seq<NamedIndexV>)
    requires
        registry_shape_eq(a, b),
        names_unique(a),
    ensures
        names_unique(b),
        forall|n2: Seq<char>| has_index(b, n2) == has_index(a, n2),
        forall|n2: Seq<char>|
            #[trigger] has_index(a, n2) ==> index_pos(b, n2) == index_pos(a, n2) && index_of(
                b,
                n2,
            ).key_type == index_of(a, n2).key_type && index_of(b, n2).is_open == index_of(
                a,
                n2,
            ).is_open,
{
    assert forall|i: int, j: int|
        0 <= i < j < b.len() implies (#[trigger] b[i]).name != (#[trigger] b[j]).name by {
        assert(a[i].name != a[j].name);
    }
    assert forall|n2: Seq<char>| has_index(b, n2) == has_index(a, n2) by {
        if has_index(a, n2) {
            let i = index_pos(a, n2);
            assert(0 <= i < a.len() && a[i].name == n2);
            assert(b[i].name == n2);
        }
        if has_index(b, n2) {
            let i = index_pos(b, n2);
            assert(0 <= i < b.len() && b[i].name == n2);
            assert(a[i].name == n2);
        }
    }
    assert forall|n2: Seq<char>| #[trigger] has_index(a, n2) implies index_pos(b, n2) == index_pos(
        a,
        n2,
    ) && index_of(b, n2).key_type == index_of(a, n2).key_type && index_of(b, n2).is_open
        == index_of(a, n2).is_open by {
        let i = index_pos(a, n2);
        assert(0 <= i < a.len() && a[i].name == n2);
        assert(b[i].name == n2);
        lemma_index_pos(b, n2, i);
    }
}

/// The state change of one immediately visible (transaction-less) write:
/// a one-operation implicit transaction committing on its own.
pub open spec fn single_commit_post(
    db: DbV,
    db2: DbV,
    n: Seq<char>,
    k: KeyV,
    val: Option<Seq<u8>>,
) -> bool {
    &&& db2.txns == db.txns
    &&& db2.next_txn == db.next_txn
    &&& db2.seq == db.seq + 1
    &&& history_preserved(db.indices, db2.indices, db.seq)
    &&& committed_map(db2, n) == (match val {
        Some(v) => committed_map(db, n).insert(k, v),
        None => committed_map(db, n).remove(k),
    })
    &&& forall|n2: Seq<char>|
        has_index(db.indices, n2) && n2 != n ==> committed_map(db2, n2) == committed_map(db, n2)
    &&& forall|k2: KeyV, s2: int|
        key_written_after(index_of(db2.indices, n), k2, s2) == (key_written_after(
            index_of(db.indices, n),
            k2,
            s2,
        ) || (k2 == k && s2 <= db.seq))
    &&& forall|n2: Seq<char>, k2: KeyV, s2: int|
        has_index(db.indices, n2) && n2 != n ==> key_written_after(
            index_of(db2.indices, n2),
            k2,
            s2,
        ) == key_written_after(index_of(db.indices, n2), k2, s2)
}

/// The state change of buffering one write in an active transaction: the
/// shared state is untouched.
pub open spec fn buffered_write_post(
    db: DbV,
    db2: DbV,
    id: int,
    n: Seq<char>,
    k: KeyV,
    val: Option<Seq<u8>>,
) -> bool {
    &&& db2.indices == db.indices
    &&& db2.seq == db.seq
    &&& db2.next_txn == db.next_txn
    &&& has_txn(db.txns, id)
    &&& db2.txns == db.txns.update(
        txn_pos(db.txns, id),
        TxnV {
            id: txn_of(db.txns, id).id,
            snapshot: txn_of(db.txns, id).snapshot,
            writes: set_write(txn_of(db.txns, id).writes, n, k, val),
        },
    )
}

/// The state change of a successful commit: every index reads as its old
/// committed map with the whole write set applied at once, and history up
/// to the old sequence number is untouched.
pub open spec fn commit_apply_post(db: DbV, db2: DbV, t: TxnV) -> bool {
    &&& db2.seq == db.seq + 1
    &&& db2.next_txn == db.next_txn
    &&& history_preserved(db.indices, db2.indices, db.seq)
    &&& forall|n: Seq<char>|
        #[trigger] has_index(db.indices, n) ==> committed_map(db2, n) == overlay(
            committed_map(db, n),
            t.writes,
            n,
        )
    &&& forall|n: Seq<char>, k2: KeyV, s2: int|
        has_index(db.indices, n) ==> #[trigger] key_written_after(index_of(db2.indices, n), k2, s2)
            == (key_written_after(index_of(db.indices, n), k2, s2) || (has_write(t.writes, n, k2)
            && s2 <= db.seq))
}

} // verus!
