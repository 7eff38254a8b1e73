//! The database: a registry of named indices, the set of active
//! transactions, and the global commit sequence number that linearizes all
//! commits.

use vstd::prelude::*;

use crate::index::SimpleIndex;
use crate::keys::{
    clone_value, key_eq, key_lt, key_lt_v, lemma_key_lt_asym, lemma_key_lt_connected,
    lemma_key_lt_trans, str_eq, variants_match, same_variant, Key, KeyV, MemDBError, MemDBResult,
    Record, RecordV, Value,
};
use crate::model::{
    buffered_write_post, commit_apply_post, committed_map, db_wf, entries_sorted, has_index,
    has_key, has_txn, has_write, in_range, recs_has, recs_sorted,
    history_preserved, idx_map_at, index_of, index_pos, index_wf, key_written_after,
    lemma_idx_map_high, lemma_index_pos, lemma_index_wf_mono, lemma_overlay_push,
    lemma_overlay_unwritten, lemma_overlay_written, lemma_registry_shape,
    lemma_set_write, lemma_txn_pos, lemma_write_pos, names_unique, overlay, read_map,
    registry_shape_eq, set_write, single_commit_post, tid_of, touches_index, txn_conflicts,
    txn_ids_unique, txn_of, txn_opt_valid, txn_pos, txn_wf, versions_wf, write_for,
    write_pos, writes_unique, DbV, IndexV, NamedIndexV, TxnV, WriteV,
};

verus! {

/// One buffered write of a transaction's private undo/redo log.
pub struct WriteOp {
    iname: String,
    key: Key,
    val: Option<Value>,
}

impl View for WriteOp {
    type V = WriteV;

    closed spec fn view(&self) -> WriteV {
        WriteV {
            iname: self.iname@,
            key: self.key@,
            val: match self.val {
                Some(ref v) => Some(v@),
                None => None,
            },
        }
    }
}

/// Capability marker for units of work; handles into the engine are opaque
/// transaction ids.
pub trait Transaction {

}

/// An active unit of work: an opaque id, a snapshot marker, and privately
/// buffered writes that become visible only on commit.
pub struct SimpleTransaction {
    id: u64,
    snapshot: u64,
    writes: Vec<WriteOp>,
}

impl Transaction for SimpleTransaction {

}

impl View for SimpleTransaction {
    type V = TxnV;

    closed spec fn view(&self) -> TxnV {
        TxnV {
            id: self.id as int,
            snapshot: self.snapshot as int,
            writes: self.writes@.map_values(|w: WriteOp| w@),
        }
    }
}

/// One registered index under its (unique, case-sensitive) name.
pub struct NamedIndex {
    name: String,
    index: SimpleIndex,
}

impl View for NamedIndex {
    type V = NamedIndexV;

    closed spec fn view(&self) -> NamedIndexV {
        NamedIndexV { name: self.name@, index: self.index@ }
    }
}

/// An in-memory transactional database: named indices mutated inside
/// optional snapshot-isolated transactions with first-committer-wins
/// conflict detection.
pub struct SimpleMemDB {
    seq: u64,
    next_txn: u64,
    indices: Vec<NamedIndex>,
    txns: Vec<SimpleTransaction>,
}

impl View for SimpleMemDB {
    type V = DbV;

    closed spec fn view(&self) -> DbV {
        DbV {
            seq: self.seq as int,
            next_txn: self.next_txn as int,
            indices: self.indices@.map_values(|nx: NamedIndex| nx@),
            txns: self.txns@.map_values(|t: SimpleTransaction| t@),
        }
    }
}

impl SimpleMemDB {
    /// Every operation preserves this; constructors establish it.
    pub open spec fn inv(&self) -> bool {
        db_wf(self@)
    }

    /// An empty database: no indices, no transactions, sequence number 0.
    pub fn new() -> (r: Self)
        ensures
            r.inv(),
            r@.seq == 0,
            r@.next_txn == 0,
            r@.indices == Seq::<NamedIndexV>::empty(),
            r@.txns == Seq::<TxnV>::empty(),
    {
        let r = SimpleMemDB { seq: 0, next_txn: 0, indices: Vec::new(), txns: Vec::new() };
        proof {
            assert(r@.indices =~= Seq::<NamedIndexV>::empty());
            assert(r@.txns =~= Seq::<TxnV>::empty());
        }
        r
    }

    /// The position of the index registered under `name`, if any.
    fn find_index(&self, name: &str) -> (r: Option<usize>)
        requires
            names_unique(self@.indices),
        ensures
            match r {
                Some(i) => has_index(self@.indices, name@) && index_pos(self@.indices, name@)
                    == i as int && i < self@.indices.len(),
                None => !has_index(self@.indices, name@),
            },
    {
        let n = self.indices.len();
        let mut i: usize = 0;
        while i < n
            invariant
                i <= n,
                n == self@.indices.len(),
                names_unique(self@.indices),
                forall|j: int| 0 <= j < i ==> (#[trigger] self@.indices[j]).name != name@,
            decreases n - i,
        {
            if str_eq(self.indices[i].name.as_str(), name) {
                proof {
                    lemma_index_pos(self@.indices, name@, i as int);
                }
                return Some(i);
            }
            i = i + 1;
        }
        None
    }

    /// The position of the active transaction with this id, if any.
    fn find_txn(&self, id: u64) -> (r: Option<usize>)
        requires
            txn_ids_unique(self@.txns),
        ensures
            match r {
                Some(i) => has_txn(self@.txns, id as int) && txn_pos(self@.txns, id as int)
                    == i as int && i < self@.txns.len(),
                None => !has_txn(self@.txns, id as int),
            },
    {
        let n = self.txns.len();
        let mut i: usize = 0;
        while i < n
            invariant
                i <= n,
                n == self@.txns.len(),
                txn_ids_unique(self@.txns),
                forall|j: int| 0 <= j < i ==> (#[trigger] self@.txns[j]).id != id as int,
            decreases n - i,
        {
            if self.txns[i].id == id {
                proof {
                    lemma_txn_pos(self@.txns, id as int, i as int);
                }
                return Some(i);
            }
            i = i + 1;
        }
        None
    }

    /// Register a fresh, empty index under `name`, keyed by the variant of
    /// `key_type`.
    pub fn create_index(&mut self, name: &str, key_type: Key) -> (r: MemDBResult<()>)
        requires
            old(self).inv(),
        ensures
            final(self).inv(),
            match r {
                Ok(()) => !has_index(old(self)@.indices, name@) && final(self)@ == (DbV {
                    indices: old(self)@.indices.push(
                        NamedIndexV {
                            name: name@,
                            index: IndexV {
                                key_type: key_type@,
                                entries: Seq::<crate::model::EntryV>::empty(),
                                is_open: false,
                            },
                        },
                    ),
                    ..old(self)@
                }),
                Err(e) => e == MemDBError::EntryExists && has_index(old(self)@.indices, name@)
                    && final(self)@ == old(self)@,
            },
    {
        match self.find_index(name) {
            Some(_) => Err(MemDBError::EntryExists),
            None => {
                let ghost pre = self@;
                let nx = NamedIndex { name: name.to_owned(), index: SimpleIndex::new(key_type) };
                self.indices.push(nx);
                proof {
                    assert(self@.indices =~= pre.indices.push(nx@));
                    assert(self@ == (DbV { indices: pre.indices.push(nx@), ..pre }));
                    let ixs2 = self@.indices;
                    assert forall|i: int, j: int|
                        0 <= i < j < ixs2.len() implies (#[trigger] ixs2[i]).name != (
                    #[trigger] ixs2[j]).name by {
                        if j == ixs2.len() - 1 {
                            assert(ixs2[i] == pre.indices[i]);
                        }
                    }
                    assert(registry_shape_eq(pre.indices, ixs2.take(pre.indices.len() as int)))
                        by {
                        assert(ixs2.take(pre.indices.len() as int) =~= pre.indices);
                    }
                    assert forall|i: int| 0 <= i < ixs2.len() implies index_wf(
                        (#[trigger] ixs2[i]).index,
                        self@.seq,
                    ) by {
                        if i < pre.indices.len() {
                            assert(ixs2[i] == pre.indices[i]);
                        }
                    }
                    assert forall|i: int| 0 <= i < self@.txns.len() implies txn_wf(
                        self@,
                        #[trigger] self@.txns[i],
                    ) by {
                        let t = self@.txns[i];
                        assert(txn_wf(pre, t));
                        assert forall|w: int| 0 <= w < t.writes.len() implies has_index(
                            ixs2,
                            (#[trigger] t.writes[w]).iname,
                        ) && same_variant(
                            t.writes[w].key,
                            index_of(ixs2, t.writes[w].iname).key_type,
                        ) by {
                            let nm = t.writes[w].iname;
                            let p = index_pos(pre.indices, nm);
                            assert(0 <= p < pre.indices.len() && pre.indices[p].name == nm);
                            assert(ixs2[p] == pre.indices[p]);
                            lemma_index_pos(ixs2, nm, p);
                        }
                    }
                }
                Ok(())
            },
        }
    }

    /// Does the transaction at position `ti` hold a buffered write against
    /// index `name`?
    fn txn_touches(&self, ti: usize, name: &str) -> (r: bool)
        requires
            ti < self@.txns.len(),
        ensures
            r == touches_index(self@.txns[ti as int].writes, name@),
    {
        let t = &self.txns[ti];
        let n = t.writes.len();
        let mut i: usize = 0;
        while i < n
            invariant
                i <= n,
                ti < self@.txns.len(),
                t == self.txns[ti as int],
                n == t@.writes.len(),
                t@ == self@.txns[ti as int],
                forall|j: int| 0 <= j < i ==> (#[trigger] t@.writes[j]).iname != name@,
            decreases n - i,
        {
            if str_eq(t.writes[i].iname.as_str(), name) {
                proof {
                    assert(t@.writes[i as int].iname == name@);
                }
                return true;
            }
            i = i + 1;
        }
        false
    }

    /// Unregister the index named `name`.  Refused while any active
    /// transaction still holds buffered writes against it.
    pub fn drop_index(&mut self, name: &str) -> (r: MemDBResult<()>)
        requires
            old(self).inv(),
        ensures
            final(self).inv(),
            match r {
                Ok(()) => has_index(old(self)@.indices, name@) && (forall|i: int|
                    0 <= i < old(self)@.txns.len() ==> !touches_index(
                        (#[trigger] old(self)@.txns[i]).writes,
                        name@,
                    )) && final(self)@ == (DbV {
                    indices: old(self)@.indices.remove(index_pos(old(self)@.indices, name@)),
                    ..old(self)@
                }),
                Err(e) => final(self)@ == old(self)@ && ((e == MemDBError::EntryDoesNotExist
                    && !has_index(old(self)@.indices, name@)) || (e == MemDBError::Failure
                    && has_index(old(self)@.indices, name@) && exists|i: int|
                    0 <= i < old(self)@.txns.len() && touches_index(
                        (#[trigger] old(self)@.txns[i]).writes,
                        name@,
                    ))),
            },
    {
        let ii = match self.find_index(name) {
            None => {
                return Err(MemDBError::EntryDoesNotExist);
            },
            Some(ii) => ii,
        };
        let nt = self.txns.len();
        let mut ti: usize = 0;
        while ti < nt
            invariant
                ti <= nt,
                self.inv(),
                self@ == old(self)@,
                nt == self@.txns.len(),
                forall|j: int| 0 <= j < ti ==> !touches_index(
                    (#[trigger] self@.txns[j]).writes,
                    name@,
                ),
            decreases nt - ti,
        {
            if self.txn_touches(ti, name) {
                proof {
                    assert(touches_index(old(self)@.txns[ti as int].writes, name@));
                }
                return Err(MemDBError::Failure);
            }
            ti = ti + 1;
        }
        let ghost pre = self@;
        self.indices.remove(ii);
        proof {
            let p = ii as int;
            assert(self@.indices =~= pre.indices.remove(p));
            assert(self@ == (DbV { indices: pre.indices.remove(p), ..pre }));
            let ixs2 = self@.indices;
            assert(forall|j: int| 0 <= j < p ==> (#[trigger] ixs2[j]) == pre.indices[j]);
            assert(forall|j: int| p <= j < ixs2.len() ==> (#[trigger] ixs2[j]) == pre.indices[
                j + 1
            ]);
            assert forall|i: int, j: int|
                0 <= i < j < ixs2.len() implies (#[trigger] ixs2[i]).name != (
            #[trigger] ixs2[j]).name by {}
            assert forall|i: int| 0 <= i < ixs2.len() implies index_wf(
                (#[trigger] ixs2[i]).index,
                self@.seq,
            ) by {}
            assert forall|i: int| 0 <= i < self@.txns.len() implies txn_wf(
                self@,
                #[trigger] self@.txns[i],
            ) by {
                let t = self@.txns[i];
                assert(txn_wf(pre, t));
                assert(!touches_index(t.writes, name@));
                assert forall|w: int| 0 <= w < t.writes.len() implies has_index(
                    ixs2,
                    (#[trigger] t.writes[w]).iname,
                ) && same_variant(t.writes[w].key, index_of(ixs2, t.writes[w].iname).key_type) by {
                    let nm = t.writes[w].iname;
                    assert(nm != name@);
                    let q = index_pos(pre.indices, nm);
                    assert(0 <= q < pre.indices.len() && pre.indices[q].name == nm);
                    assert(q != p);
                    if q < p {
                        assert(ixs2[q] == pre.indices[q]);
                        lemma_index_pos(ixs2, nm, q);
                    } else {
                        assert(ixs2[q - 1] == pre.indices[q]);
                        lemma_index_pos(ixs2, nm, q - 1);
                    }
                }
            }
        }
        Ok(())
    }

    /// Open a handle (the name itself) to the index named `name`.
    pub fn open_index(&mut self, name: &str) -> (r: MemDBResult<String>)
        requires
            old(self).inv(),
        ensures
            final(self).inv(),
            match r {
                Ok(h) => has_index(old(self)@.indices, name@) && h@ == name@ && final(self)@
                    == (DbV {
                    indices: old(self)@.indices.update(
                        index_pos(old(self)@.indices, name@),
                        NamedIndexV {
                            name: name@,
                            index: (IndexV { is_open: true, ..index_of(old(self)@.indices, name@) }),
                        },
                    ),
                    ..old(self)@
                }),
                Err(e) => e == MemDBError::EntryDoesNotExist && !has_index(
                    old(self)@.indices,
                    name@,
                ) && final(self)@ == old(self)@,
            },
    {
        match self.find_index(name) {
            None => Err(MemDBError::EntryDoesNotExist),
            Some(ii) => {
                let ghost pre = self@;
                self.indices[ii].index.set_open(true);
                proof {
                    self.lemma_open_flip(pre, ii as int, name@);
                }
                Ok(name.to_owned())
            },
        }
    }

    /// Release an open handle to the index named `handle`.
    pub fn close_index(&mut self, handle: &str) -> (r: MemDBResult<()>)
        requires
            old(self).inv(),
        ensures
            final(self).inv(),
            match r {
                Ok(()) => has_index(old(self)@.indices, handle@) && index_of(
                    old(self)@.indices,
                    handle@,
                ).is_open && final(self)@ == (DbV {
                    indices: old(self)@.indices.update(
                        index_pos(old(self)@.indices, handle@),
                        NamedIndexV {
                            name: handle@,
                            index: (IndexV {
                                is_open: false,
                                ..index_of(old(self)@.indices, handle@)
                            }),
                        },
                    ),
                    ..old(self)@
                }),
                Err(e) => e == MemDBError::EntryDoesNotExist && final(self)@ == old(self)@ && !(
                has_index(old(self)@.indices, handle@) && index_of(
                    old(self)@.indices,
                    handle@,
                ).is_open),
            },
    {
        match self.find_index(handle) {
            None => Err(MemDBError::EntryDoesNotExist),
            Some(ii) => {
                if !self.indices[ii].index.open_flag() {
                    return Err(MemDBError::EntryDoesNotExist);
                }
                let ghost pre = self@;
                self.indices[ii].index.set_open(false);
                proof {
                    self.lemma_open_flip(pre, ii as int, handle@);
                }
                Ok(())
            },
        }
    }

    /// The open/close operations change nothing the invariant watches.
    proof fn lemma_open_flip(&self, pre: DbV, p: int, nm: Seq<char>)
        requires
            db_wf(pre),
            0 <= p < pre.indices.len(),
            pre.indices[p].name == nm,
            self@.seq == pre.seq,
            self@.next_txn == pre.next_txn,
            self@.txns == pre.txns,
            self@.indices.len() == pre.indices.len(),
            forall|j: int| 0 <= j < pre.indices.len() && j != p ==> (#[trigger] self@.indices[j])
                == pre.indices[j],
            self@.indices[p].name == nm,
            self@.indices[p].index.key_type == pre.indices[p].index.key_type,
            self@.indices[p].index.entries == pre.indices[p].index.entries,
        ensures
            db_wf(self@),
            self@.indices == pre.indices.update(
                p,
                NamedIndexV { name: nm, index: self@.indices[p].index },
            ),
            index_pos(pre.indices, nm) == p,
    {
        lemma_index_pos(pre.indices, nm, p);
        let ixs2 = self@.indices;
        assert(ixs2 =~= pre.indices.update(
            p,
            NamedIndexV { name: nm, index: self@.indices[p].index },
        ));
        assert forall|i: int, j: int|
            0 <= i < j < ixs2.len() implies (#[trigger] ixs2[i]).name != (#[trigger] ixs2[j]).name by {
            assert(ixs2[i].name == pre.indices[i].name);
            assert(ixs2[j].name == pre.indices[j].name);
        }
        assert forall|i: int| 0 <= i < ixs2.len() implies index_wf(
            (#[trigger] ixs2[i]).index,
            self@.seq,
        ) by {
            assert(index_wf(pre.indices[i].index, pre.seq));
            if i == p {
                assert(ixs2[p].index.entries == pre.indices[p].index.entries);
            }
        }
        assert forall|i: int| 0 <= i < self@.txns.len() implies txn_wf(
            self@,
            #[trigger] self@.txns[i],
        ) by {
            let t = self@.txns[i];
            assert(txn_wf(pre, t));
            assert forall|w: int| 0 <= w < t.writes.len() implies has_index(
                ixs2,
                (#[trigger] t.writes[w]).iname,
            ) && same_variant(t.writes[w].key, index_of(ixs2, t.writes[w].iname).key_type) by {
                let nm2 = t.writes[w].iname;
                let q = index_pos(pre.indices, nm2);
                assert(0 <= q < pre.indices.len() && pre.indices[q].name == nm2);
                assert(ixs2[q].name == nm2);
                assert(ixs2[q].index.key_type == pre.indices[q].index.key_type);
                lemma_index_pos(ixs2, nm2, q);
            }
        }
    }

    /// Start a new unit of work: a fresh id and a snapshot marker at the
    /// current commit sequence number.
    pub fn begin_transaction(&mut self) -> (r: MemDBResult<u64>)
        requires
            old(self).inv(),
        ensures
            final(self).inv(),
            match r {
                Ok(id) => old(self)@.next_txn < u64::MAX && id as int == old(self)@.next_txn
                    && !has_txn(old(self)@.txns, id as int) && final(self)@ == (DbV {
                    next_txn: old(self)@.next_txn + 1,
                    txns: old(self)@.txns.push(
                        TxnV {
                            id: id as int,
                            snapshot: old(self)@.seq,
                            writes: Seq::<WriteV>::empty(),
                        },
                    ),
                    ..old(self)@
                }),
                Err(e) => e == MemDBError::Failure && old(self)@.next_txn == u64::MAX
                    && final(self)@ == old(self)@,
            },
    {
        if self.next_txn == u64::MAX {
            return Err(MemDBError::Failure);
        }
        let ghost pre = self@;
        let id = self.next_txn;
        let t = SimpleTransaction { id, snapshot: self.seq, writes: Vec::new() };
        self.next_txn = self.next_txn + 1;
        self.txns.push(t);
        proof {
            assert(t@.writes =~= Seq::<WriteV>::empty());
            assert(self@.txns =~= pre.txns.push(t@));
            assert(self@ == (DbV { next_txn: pre.next_txn + 1, txns: pre.txns.push(t@), ..pre }));
            if has_txn(pre.txns, id as int) {
                let i = txn_pos(pre.txns, id as int);
                assert(0 <= i < pre.txns.len() && pre.txns[i].id == id as int);
                assert(txn_wf(pre, pre.txns[i]));
                assert(false);
            }
            let ts2 = self@.txns;
            assert forall|i: int, j: int|
                0 <= i < j < ts2.len() implies (#[trigger] ts2[i]).id != (#[trigger] ts2[j]).id by {
                if j == ts2.len() - 1 {
                    assert(ts2[i] == pre.txns[i]);
                    assert(txn_wf(pre, pre.txns[i]));
                }
            }
            assert forall|i: int| 0 <= i < ts2.len() implies txn_wf(self@, #[trigger] ts2[i]) by {
                if i < pre.txns.len() {
                    assert(ts2[i] == pre.txns[i]);
                    assert(txn_wf(pre, pre.txns[i]));
                }
            }
        }
        Ok(id)
    }

    /// Remove the transaction at position `ti` from the active set.
    fn remove_txn_at(&mut self, ti: usize)
        requires
            old(self).inv(),
            ti < old(self)@.txns.len(),
        ensures
            final(self).inv(),
            final(self)@ == (DbV { txns: old(self)@.txns.remove(ti as int), ..old(self)@ }),
    {
        let ghost pre = self@;
        self.txns.remove(ti);
        proof {
            assert(self@.txns =~= pre.txns.remove(ti as int));
            assert(self@ == (DbV { txns: pre.txns.remove(ti as int), ..pre }));
            let ts2 = self@.txns;
            assert(forall|j: int| 0 <= j < ti ==> (#[trigger] ts2[j]) == pre.txns[j]);
            assert(forall|j: int| ti <= j < ts2.len() ==> (#[trigger] ts2[j]) == pre.txns[j + 1]);
            assert forall|i: int, j: int|
                0 <= i < j < ts2.len() implies (#[trigger] ts2[i]).id != (#[trigger] ts2[j]).id by {}
            assert forall|i: int| 0 <= i < ts2.len() implies txn_wf(self@, #[trigger] ts2[i]) by {
                if i < ti {
                    assert(txn_wf(pre, pre.txns[i]));
                } else {
                    assert(txn_wf(pre, pre.txns[i + 1]));
                }
            }
        }
    }

    /// The value `key` has in the given transaction's view of the index at
    /// position `ii`: its own buffered write if it has one, else the
    /// committed state at its snapshot marker.
    fn txn_view_get(&self, ii: usize, tr: &SimpleTransaction, key: &Key) -> (r: Option<Value>)
        requires
            ii < self@.indices.len(),
            entries_sorted(self@.indices[ii as int].index.entries),
            writes_unique(tr@.writes),
        ensures
            ({
                let m = overlay(
                    idx_map_at(self@.indices[ii as int].index, tr@.snapshot),
                    tr@.writes,
                    self@.indices[ii as int].name,
                );
                match r {
                    Some(v) => m.contains_key(key@) && v@ == m[key@],
                    None => !m.contains_key(key@),
                }
            }),
    {
        let ghost nm = self@.indices[ii as int].name;
        let ghost base = idx_map_at(self@.indices[ii as int].index, tr@.snapshot);
        let n = tr.writes.len();
        let mut i: usize = 0;
        while i < n
            invariant
                i <= n,
                n == tr@.writes.len(),
                writes_unique(tr@.writes),
                ii < self@.indices.len(),
                nm == self@.indices[ii as int].name,
                base == idx_map_at(self@.indices[ii as int].index, tr@.snapshot),
                forall|j: int|
                    0 <= j < i ==> !((#[trigger] tr@.writes[j]).iname == nm && tr@.writes[j].key
                        == key@),
            decreases n - i,
        {
            if str_eq(tr.writes[i].iname.as_str(), self.indices[ii].name.as_str()) && key_eq(
                &tr.writes[i].key,
                key,
            ) {
                proof {
                    lemma_write_pos(tr@.writes, nm, key@, i as int);
                    lemma_overlay_written(base, tr@.writes, nm, key@);
                    assert(write_for(tr@.writes, nm, key@) == tr@.writes[i as int]);
                }
                match &tr.writes[i].val {
                    Some(v) => {
                        proof {
                            assert(tr@.writes[i as int].val == Some(v@));
                        }
                        return Some(clone_value(v));
                    },
                    None => {
                        proof {
                            assert(tr@.writes[i as int].val is None);
                        }
                        return None;
                    },
                }
            }
            i = i + 1;
        }
        proof {
            assert(!has_write(tr@.writes, nm, key@));
            lemma_overlay_unwritten(base, tr@.writes, nm, key@);
        }
        self.indices[ii].index.read_at(key, tr.snapshot)
    }

    /// All records whose key compares equal to `key` in the reader's view
    /// of the index: at most one, since keys are unique within an index.
    /// An empty result is not an error.
    pub fn get(&self, index: &str, key: &Key, txn: Option<u64>) -> (r: MemDBResult<Vec<Record>>)
        requires
            self.inv(),
        ensures
            match r {
                Ok(recs) => has_index(self@.indices, index@) && txn_opt_valid(self@, tid_of(txn))
                    && ({
                    let m = read_map(self@, index@, tid_of(txn));
                    if m.contains_key(key@) {
                        recs@.len() == 1 && recs@[0]@ == (RecordV { key: key@, value: m[key@] })
                    } else {
                        recs@.len() == 0
                    }
                }),
                Err(e) => (e == MemDBError::EntryDoesNotExist && !has_index(
                    self@.indices,
                    index@,
                )) || (e == MemDBError::TransactionDoesNotExist && has_index(self@.indices, index@)
                    && !txn_opt_valid(self@, tid_of(txn))),
            },
    {
        match self.read_value(index, key, txn) {
            Err(e) => Err(e),
            Ok(opt) => {
                let mut recs: Vec<Record> = Vec::new();
                match opt {
                    Some(v) => {
                        recs.push(Record { key: key.clone(), value: v });
                    },
                    None => {},
                }
                Ok(recs)
            },
        }
    }

    /// The exactly-one-match point lookup.
    pub fn get_single(&self, index: &str, key: &Key, txn: Option<u64>) -> (r: MemDBResult<Record>)
        requires
            self.inv(),
        ensures
            match r {
                Ok(rec) => has_index(self@.indices, index@) && txn_opt_valid(self@, tid_of(txn))
                    && read_map(self@, index@, tid_of(txn)).contains_key(key@) && rec@ == (RecordV {
                    key: key@,
                    value: read_map(self@, index@, tid_of(txn))[key@],
                }),
                Err(e) => (e == MemDBError::EntryDoesNotExist && !has_index(
                    self@.indices,
                    index@,
                )) || (e == MemDBError::TransactionDoesNotExist && has_index(self@.indices, index@)
                    && !txn_opt_valid(self@, tid_of(txn))) || (e == MemDBError::EntryDoesNotExist
                    && has_index(self@.indices, index@) && txn_opt_valid(self@, tid_of(txn))
                    && !read_map(self@, index@, tid_of(txn)).contains_key(key@)),
            },
    {
        match self.read_value(index, key, txn) {
            Err(e) => Err(e),
            Ok(opt) => match opt {
                Some(v) => Ok(Record { key: key.clone(), value: v }),
                None => Err(MemDBError::EntryDoesNotExist),
            },
        }
    }

    /// The shared read path of `get` and `get_single`.
    fn read_value(&self, index: &str, key: &Key, txn: Option<u64>) -> (r: MemDBResult<
        Option<Value>,
    >)
        requires
            self.inv(),
        ensures
            match r {
                Ok(opt) => has_index(self@.indices, index@) && txn_opt_valid(self@, tid_of(txn))
                    && ({
                    let m = read_map(self@, index@, tid_of(txn));
                    match opt {
                        Some(v) => m.contains_key(key@) && v@ == m[key@],
                        None => !m.contains_key(key@),
                    }
                }),
                Err(e) => (e == MemDBError::EntryDoesNotExist && !has_index(
                    self@.indices,
                    index@,
                )) || (e == MemDBError::TransactionDoesNotExist && has_index(self@.indices, index@)
                    && !txn_opt_valid(self@, tid_of(txn))),
            },
    {
        let ii = match self.find_index(index) {
            None => {
                return Err(MemDBError::EntryDoesNotExist);
            },
            Some(ii) => ii,
        };
        proof {
            assert(self@.indices[ii as int].name == index@);
            assert(index_of(self@.indices, index@) == self@.indices[ii as int].index);
        }
        match txn {
            None => Ok(self.indices[ii].index.read_at(key, self.seq)),
            Some(id) => {
                let ti = match self.find_txn(id) {
                    None => {
                        return Err(MemDBError::TransactionDoesNotExist);
                    },
                    Some(ti) => ti,
                };
                proof {
                    assert(txn_of(self@.txns, id as int) == self@.txns[ti as int]);
                    assert(txn_wf(self@, self@.txns[ti as int]));
                }
                Ok(self.txn_view_get(ii, &self.txns[ti], key))
            },
        }
    }

    /// Apply one transaction-less write as its own implicit one-operation
    /// transaction: immediately and atomically visible.
    fn commit_single(&mut self, ii: usize, key: &Key, val: Option<Value>)
        requires
            old(self).inv(),
            ii < old(self)@.indices.len(),
            same_variant(key@, old(self)@.indices[ii as int].index.key_type),
            old(self)@.seq < u64::MAX,
        ensures
            final(self).inv(),
            single_commit_post(
                old(self)@,
                final(self)@,
                old(self)@.indices[ii as int].name,
                key@,
                match val {
                    Some(v) => Some(v@),
                    None => None,
                },
            ),
    {
        let ghost pre = self@;
        let ghost nm = pre.indices[ii as int].name;
        let s = self.seq + 1;
        proof {
            lemma_index_wf_mono(pre.indices[ii as int].index, pre.seq, s as int);
            if key_written_after(pre.indices[ii as int].index, key@, s - 1) {
                let ix = pre.indices[ii as int].index;
                let (a, b): (int, int) = choose|a: int, b: int|
                    0 <= a < ix.entries.len() && (#[trigger] ix.entries[a]).key == key@ && 0 <= b
                        < ix.entries[a].versions.len() && (#[trigger] ix.entries[a].versions[b]).seq
                        > s - 1;
                assert(versions_wf(ix.entries[a].versions, pre.seq));
                assert(false);
            }
        }
        self.indices[ii].index.put_version(key, val, s);
        self.seq = s;
        proof {
            let p = ii as int;
            let ixs2 = self@.indices;
            let ix2 = ixs2[p].index;
            assert(forall|j: int| 0 <= j < ixs2.len() && j != p ==> (#[trigger] ixs2[j])
                == pre.indices[j]);
            assert(ixs2[p].name == nm);
            assert(registry_shape_eq(pre.indices, ixs2));
            lemma_registry_shape(pre.indices, ixs2);
            assert forall|i: int| 0 <= i < ixs2.len() implies index_wf(
                (#[trigger] ixs2[i]).index,
                self@.seq,
            ) by {
                if i != p {
                    lemma_index_wf_mono(pre.indices[i].index, pre.seq, s as int);
                }
            }
            assert forall|i: int| 0 <= i < self@.txns.len() implies txn_wf(
                self@,
                #[trigger] self@.txns[i],
            ) by {
                let t = self@.txns[i];
                assert(txn_wf(pre, t));
                assert forall|w: int| 0 <= w < t.writes.len() implies has_index(
                    ixs2,
                    (#[trigger] t.writes[w]).iname,
                ) && same_variant(t.writes[w].key, index_of(ixs2, t.writes[w].iname).key_type) by {
                    assert(has_index(pre.indices, t.writes[w].iname));
                }
            }
            assert(db_wf(self@));
            // The named-index view of what the write did.
            lemma_index_pos(pre.indices, nm, p);
            lemma_index_pos(ixs2, nm, p);
            assert forall|i: int, s2: int|
                0 <= i < pre.indices.len() && 0 <= s2 <= pre.seq implies #[trigger] idx_map_at(
                ixs2[i].index,
                s2,
            ) == idx_map_at(pre.indices[i].index, s2) by {}
            lemma_idx_map_high(pre.indices[p].index, pre.seq, s as int);
            assert(committed_map(self@, nm) == (match val {
                Some(v) => committed_map(pre, nm).insert(key@, v@),
                None => committed_map(pre, nm).remove(key@),
            }));
            assert forall|n2: Seq<char>| has_index(pre.indices, n2) && n2 != nm implies
                committed_map(self@, n2) == committed_map(pre, n2) by {
                let q = index_pos(pre.indices, n2);
                assert(0 <= q < pre.indices.len() && pre.indices[q].name == n2);
                assert(q != p);
                lemma_index_pos(ixs2, n2, q);
                assert(ixs2[q].index == pre.indices[q].index);
                lemma_idx_map_high(pre.indices[q].index, pre.seq, s as int);
            }
            assert forall|n2: Seq<char>, k2: KeyV, s2: int|
                has_index(pre.indices, n2) && n2 != nm implies key_written_after(
                index_of(ixs2, n2),
                k2,
                s2,
            ) == key_written_after(index_of(pre.indices, n2), k2, s2) by {
                let q = index_pos(pre.indices, n2);
                assert(0 <= q < pre.indices.len() && pre.indices[q].name == n2);
                assert(q != p);
                lemma_index_pos(ixs2, n2, q);
                assert(ixs2[q].index == pre.indices[q].index);
            }
        }
    }

    /// Buffer one write in the transaction at position `ti`, keyed by
    /// (index name, key): a later write to the same key replaces it.
    fn buffer_write(&mut self, ti: usize, ii: usize, key: &Key, val: Option<Value>)
        requires
            old(self).inv(),
            ti < old(self)@.txns.len(),
            ii < old(self)@.indices.len(),
            same_variant(key@, old(self)@.indices[ii as int].index.key_type),
        ensures
            final(self).inv(),
            buffered_write_post(
                old(self)@,
                final(self)@,
                old(self)@.txns[ti as int].id,
                old(self)@.indices[ii as int].name,
                key@,
                match val {
                    Some(v) => Some(v@),
                    None => None,
                },
            ),
    {
        let ghost pre = self@;
        let ghost nm = pre.indices[ii as int].name;
        let ghost tv = pre.txns[ti as int];
        let ghost vv: Option<Seq<u8>> = match val {
            Some(ref v) => Some(v@),
            None => None,
        };
        proof {
            lemma_txn_pos(pre.txns, tv.id, ti as int);
            lemma_set_write(tv.writes, nm, key@, vv);
        }
        let iname = self.indices[ii].name.clone();
        let w = WriteOp { iname, key: key.clone(), val };
        proof {
            assert(w@ == (WriteV { iname: nm, key: key@, val: vv }));
        }
        let n = self.txns[ti].writes.len();
        let mut i: usize = 0;
        while i < n
            invariant
                i <= n,
                self@ == pre,
                pre == old(self)@,
                db_wf(pre),
                ti < pre.txns.len(),
                ii < pre.indices.len(),
                tv == pre.txns[ti as int],
                txn_pos(pre.txns, tv.id) == ti as int,
                writes_unique(tv.writes),
                n == tv.writes.len(),
                nm == pre.indices[ii as int].name,
                same_variant(key@, pre.indices[ii as int].index.key_type),
                w@ == (WriteV { iname: nm, key: key@, val: vv }),
                vv == (match val {
                    Some(ref v) => Some(v@),
                    None => None,
                }),
                forall|j: int|
                    0 <= j < i ==> !((#[trigger] tv.writes[j]).iname == nm && tv.writes[j].key
                        == key@),
            decreases n - i,
        {
            if str_eq(self.txns[ti].writes[i].iname.as_str(), self.indices[ii].name.as_str())
                && key_eq(&self.txns[ti].writes[i].key, key) {
                proof {
                    lemma_txn_pos(pre.txns, tv.id, ti as int);
                    lemma_write_pos(tv.writes, nm, key@, i as int);
                }
                self.txns[ti].writes.remove(i);
                self.txns[ti].writes.insert(i, w);
                proof {
                    assert(self@.txns[ti as int].writes =~= set_write(tv.writes, nm, key@, vv));
                    assert(self@.txns =~= pre.txns.update(
                        ti as int,
                        TxnV {
                            id: tv.id,
                            snapshot: tv.snapshot,
                            writes: set_write(tv.writes, nm, key@, vv),
                        },
                    ));
                    assert(self@ == (DbV { txns: self@.txns, ..pre }));
                    self.lemma_buffer_inv(pre, ti as int, ii as int, key@, vv);
                }
                return ;
            }
            i = i + 1;
        }
        proof {
            assert(!has_write(tv.writes, nm, key@));
            lemma_txn_pos(pre.txns, tv.id, ti as int);
        }
        self.txns[ti].writes.push(w);
        proof {
            assert(self@.txns[ti as int].writes =~= set_write(tv.writes, nm, key@, vv));
            assert(self@.txns =~= pre.txns.update(
                ti as int,
                TxnV {
                    id: tv.id,
                    snapshot: tv.snapshot,
                    writes: set_write(tv.writes, nm, key@, vv),
                },
            ));
            assert(self@ == (DbV { txns: self@.txns, ..pre }));
            self.lemma_buffer_inv(pre, ti as int, ii as int, key@, vv);
        }
    }

    /// Buffering a well-formed write preserves the database invariant.
    proof fn lemma_buffer_inv(&self, pre: DbV, ti: int, ii: int, k: KeyV, vv: Option<Seq<u8>>)
        requires
            db_wf(pre),
            0 <= ti < pre.txns.len(),
            0 <= ii < pre.indices.len(),
            same_variant(k, pre.indices[ii].index.key_type),
            self@ == (DbV {
                txns: pre.txns.update(
                    ti,
                    TxnV {
                        id: pre.txns[ti].id,
                        snapshot: pre.txns[ti].snapshot,
                        writes: set_write(pre.txns[ti].writes, pre.indices[ii].name, k, vv),
                    },
                ),
                ..pre
            }),
        ensures
            db_wf(self@),
    {
        let nm = pre.indices[ii].name;
        let tv = pre.txns[ti];
        assert(txn_wf(pre, tv));
        lemma_set_write(tv.writes, nm, k, vv);
        lemma_index_pos(pre.indices, nm, ii);
        let ts2 = self@.txns;
        assert forall|i: int, j: int|
            0 <= i < j < ts2.len() implies (#[trigger] ts2[i]).id != (#[trigger] ts2[j]).id by {
            assert(ts2[i].id == pre.txns[i].id);
            assert(ts2[j].id == pre.txns[j].id);
        }
        assert forall|i: int| 0 <= i < ts2.len() implies txn_wf(self@, #[trigger] ts2[i]) by {
            if i != ti {
                assert(ts2[i] == pre.txns[i]);
                assert(txn_wf(pre, pre.txns[i]));
            } else {
                let t2 = ts2[ti];
                let ws2 = t2.writes;
                assert(writes_unique(ws2));
                assert forall|w: int| 0 <= w < ws2.len() implies has_index(
                    self@.indices,
                    (#[trigger] ws2[w]).iname,
                ) && same_variant(ws2[w].key, index_of(self@.indices, ws2[w].iname).key_type) by {
                    if has_write(tv.writes, nm, k) {
                        let p = write_pos(tv.writes, nm, k);
                        if w == p {
                            assert(ws2[w] == (WriteV { iname: nm, key: k, val: vv }));
                        } else {
                            assert(ws2[w] == tv.writes[w]);
                        }
                    } else {
                        if w == ws2.len() - 1 {
                            assert(ws2[w] == (WriteV { iname: nm, key: k, val: vv }));
                        } else {
                            assert(ws2[w] == tv.writes[w]);
                        }
                    }
                }
            }
        }
    }

    /// Strict insert: fails if the key is already present in the caller's
    /// view.  With a transaction the write stays private until commit;
    /// without one it is immediately, atomically visible.
    pub fn insert(&mut self, index: &str, record: Record, txn: Option<u64>) -> (r: MemDBResult<()>)
        requires
            old(self).inv(),
        ensures
            final(self).inv(),
            match r {
                Ok(()) => has_index(old(self)@.indices, index@) && txn_opt_valid(
                    old(self)@,
                    tid_of(txn),
                ) && same_variant(record@.key, index_of(old(self)@.indices, index@).key_type)
                    && !read_map(old(self)@, index@, tid_of(txn)).contains_key(record@.key)
                    && (match tid_of(txn) {
                    None => old(self)@.seq < u64::MAX && single_commit_post(
                        old(self)@,
                        final(self)@,
                        index@,
                        record@.key,
                        Some(record@.value),
                    ),
                    Some(id) => buffered_write_post(
                        old(self)@,
                        final(self)@,
                        id,
                        index@,
                        record@.key,
                        Some(record@.value),
                    ),
                }),
                Err(e) => final(self)@ == old(self)@ && ((e == MemDBError::EntryDoesNotExist
                    && !has_index(old(self)@.indices, index@)) || (e
                    == MemDBError::TransactionDoesNotExist && has_index(old(self)@.indices, index@)
                    && !txn_opt_valid(old(self)@, tid_of(txn))) || (e == MemDBError::Failure
                    && has_index(old(self)@.indices, index@) && txn_opt_valid(
                    old(self)@,
                    tid_of(txn),
                ) && !same_variant(record@.key, index_of(old(self)@.indices, index@).key_type)) || (
                e == MemDBError::EntryExists && has_index(old(self)@.indices, index@)
                    && txn_opt_valid(old(self)@, tid_of(txn)) && same_variant(
                    record@.key,
                    index_of(old(self)@.indices, index@).key_type,
                ) && read_map(old(self)@, index@, tid_of(txn)).contains_key(record@.key)) || (e
                    == MemDBError::Failure && has_index(old(self)@.indices, index@)
                    && txn_opt_valid(old(self)@, tid_of(txn)) && same_variant(
                    record@.key,
                    index_of(old(self)@.indices, index@).key_type,
                ) && !read_map(old(self)@, index@, tid_of(txn)).contains_key(record@.key) && tid_of(
                    txn,
                ) is None && old(self)@.seq == u64::MAX)),
            },
    {
        let Record { key: k, value: v } = record;
        self.write_value(index, k, Some(v), txn, true, false)
    }

    /// Upsert: like `insert`, but never fails on an existing key; the new
    /// value replaces the old one.
    pub fn upsert(&mut self, index: &str, record: Record, txn: Option<u64>) -> (r: MemDBResult<()>)
        requires
            old(self).inv(),
        ensures
            final(self).inv(),
            match r {
                Ok(()) => has_index(old(self)@.indices, index@) && txn_opt_valid(
                    old(self)@,
                    tid_of(txn),
                ) && same_variant(record@.key, index_of(old(self)@.indices, index@).key_type)
                    && (match tid_of(txn) {
                    None => old(self)@.seq < u64::MAX && single_commit_post(
                        old(self)@,
                        final(self)@,
                        index@,
                        record@.key,
                        Some(record@.value),
                    ),
                    Some(id) => buffered_write_post(
                        old(self)@,
                        final(self)@,
                        id,
                        index@,
                        record@.key,
                        Some(record@.value),
                    ),
                }),
                Err(e) => final(self)@ == old(self)@ && ((e == MemDBError::EntryDoesNotExist
                    && !has_index(old(self)@.indices, index@)) || (e
                    == MemDBError::TransactionDoesNotExist && has_index(old(self)@.indices, index@)
                    && !txn_opt_valid(old(self)@, tid_of(txn))) || (e == MemDBError::Failure
                    && has_index(old(self)@.indices, index@) && txn_opt_valid(
                    old(self)@,
                    tid_of(txn),
                ) && !same_variant(record@.key, index_of(old(self)@.indices, index@).key_type)) || (
                e == MemDBError::Failure && has_index(old(self)@.indices, index@) && txn_opt_valid(
                    old(self)@,
                    tid_of(txn),
                ) && same_variant(record@.key, index_of(old(self)@.indices, index@).key_type)
                    && tid_of(txn) is None && old(self)@.seq == u64::MAX)),
            },
    {
        let Record { key: k, value: v } = record;
        self.write_value(index, k, Some(v), txn, false, false)
    }

    /// Delete the entry matching the record's key; fails if it is absent
    /// from the caller's view.
    pub fn remove(&mut self, index: &str, record: Record, txn: Option<u64>) -> (r: MemDBResult<()>)
        requires
            old(self).inv(),
        ensures
            final(self).inv(),
            match r {
                Ok(()) => has_index(old(self)@.indices, index@) && txn_opt_valid(
                    old(self)@,
                    tid_of(txn),
                ) && same_variant(record@.key, index_of(old(self)@.indices, index@).key_type)
                    && read_map(old(self)@, index@, tid_of(txn)).contains_key(record@.key) && (
                match tid_of(txn) {
                    None => old(self)@.seq < u64::MAX && single_commit_post(
                        old(self)@,
                        final(self)@,
                        index@,
                        record@.key,
                        None,
                    ),
                    Some(id) => buffered_write_post(
                        old(self)@,
                        final(self)@,
                        id,
                        index@,
                        record@.key,
                        None,
                    ),
                }),
                Err(e) => final(self)@ == old(self)@ && ((e == MemDBError::EntryDoesNotExist
                    && !has_index(old(self)@.indices, index@)) || (e
                    == MemDBError::TransactionDoesNotExist && has_index(old(self)@.indices, index@)
                    && !txn_opt_valid(old(self)@, tid_of(txn))) || (e == MemDBError::Failure
                    && has_index(old(self)@.indices, index@) && txn_opt_valid(
                    old(self)@,
                    tid_of(txn),
                ) && !same_variant(record@.key, index_of(old(self)@.indices, index@).key_type)) || (
                e == MemDBError::EntryDoesNotExist && has_index(old(self)@.indices, index@)
                    && txn_opt_valid(old(self)@, tid_of(txn)) && same_variant(
                    record@.key,
                    index_of(old(self)@.indices, index@).key_type,
                ) && !read_map(old(self)@, index@, tid_of(txn)).contains_key(record@.key)) || (e
                    == MemDBError::Failure && has_index(old(self)@.indices, index@)
                    && txn_opt_valid(old(self)@, tid_of(txn)) && same_variant(
                    record@.key,
                    index_of(old(self)@.indices, index@).key_type,
                ) && read_map(old(self)@, index@, tid_of(txn)).contains_key(record@.key) && tid_of(
                    txn,
                ) is None && old(self)@.seq == u64::MAX)),
            },
    {
        let Record { key: k, value: _ } = record;
        self.write_value(index, k, None, txn, false, true)
    }

    /// The shared write path: locate the index and transaction, check the
    /// key variant and the presence rule, then apply or buffer the write.
    fn write_value(
        &mut self,
        index: &str,
        key: Key,
        val: Option<Value>,
        txn: Option<u64>,
        strict: bool,
        must_exist: bool,
    ) -> (r: MemDBResult<()>)
        requires
            old(self).inv(),
        ensures
            final(self).inv(),
            match r {
                Ok(()) => has_index(old(self)@.indices, index@) && txn_opt_valid(
                    old(self)@,
                    tid_of(txn),
                ) && same_variant(key@, index_of(old(self)@.indices, index@).key_type) && (strict
                    ==> !read_map(old(self)@, index@, tid_of(txn)).contains_key(key@)) && (
                must_exist ==> read_map(old(self)@, index@, tid_of(txn)).contains_key(key@)) && (
                match tid_of(txn) {
                    None => old(self)@.seq < u64::MAX && single_commit_post(
                        old(self)@,
                        final(self)@,
                        index@,
                        key@,
                        match val {
                            Some(ref v) => Some(v@),
                            None => None,
                        },
                    ),
                    Some(id) => buffered_write_post(
                        old(self)@,
                        final(self)@,
                        id,
                        index@,
                        key@,
                        match val {
                            Some(ref v) => Some(v@),
                            None => None,
                        },
                    ),
                }),
                Err(e) => final(self)@ == old(self)@ && ((e == MemDBError::EntryDoesNotExist
                    && !has_index(old(self)@.indices, index@)) || (e
                    == MemDBError::TransactionDoesNotExist && has_index(old(self)@.indices, index@)
                    && !txn_opt_valid(old(self)@, tid_of(txn))) || (e == MemDBError::Failure
                    && has_index(old(self)@.indices, index@) && txn_opt_valid(
                    old(self)@,
                    tid_of(txn),
                ) && !same_variant(key@, index_of(old(self)@.indices, index@).key_type)) || (e
                    == MemDBError::EntryExists && strict && has_index(old(self)@.indices, index@)
                    && txn_opt_valid(old(self)@, tid_of(txn)) && same_variant(
                    key@,
                    index_of(old(self)@.indices, index@).key_type,
                ) && read_map(old(self)@, index@, tid_of(txn)).contains_key(key@)) || (e
                    == MemDBError::EntryDoesNotExist && must_exist && has_index(
                    old(self)@.indices,
                    index@,
                ) && txn_opt_valid(old(self)@, tid_of(txn)) && same_variant(
                    key@,
                    index_of(old(self)@.indices, index@).key_type,
                ) && !read_map(old(self)@, index@, tid_of(txn)).contains_key(key@)) || (e
                    == MemDBError::Failure && has_index(old(self)@.indices, index@)
                    && txn_opt_valid(old(self)@, tid_of(txn)) && same_variant(
                    key@,
                    index_of(old(self)@.indices, index@).key_type,
                ) && (strict ==> !read_map(old(self)@, index@, tid_of(txn)).contains_key(key@)) && (
                must_exist ==> read_map(old(self)@, index@, tid_of(txn)).contains_key(key@))
                    && tid_of(txn) is None && old(self)@.seq == u64::MAX)),
            },
    {
        let ii = match self.find_index(index) {
            None => {
                return Err(MemDBError::EntryDoesNotExist);
            },
            Some(ii) => ii,
        };
        proof {
            assert(self@.indices[ii as int].name == index@);
            assert(index_of(self@.indices, index@) == self@.indices[ii as int].index);
        }
        let tio: Option<usize> = match txn {
            None => None,
            Some(id) => {
                match self.find_txn(id) {
                    None => {
                        return Err(MemDBError::TransactionDoesNotExist);
                    },
                    Some(ti) => {
                        proof {
                            assert(txn_of(self@.txns, id as int) == self@.txns[ti as int]);
                            assert(self@.txns[ti as int].id == id as int);
                            assert(txn_wf(self@, self@.txns[ti as int]));
                        }
                        Some(ti)
                    },
                }
            },
        };
        if !variants_match(&key, self.indices[ii].index.key_exemplar()) {
            return Err(MemDBError::Failure);
        }
        if strict || must_exist {
            let existing: Option<Value> = match tio {
                None => self.indices[ii].index.read_at(&key, self.seq),
                Some(ti) => self.txn_view_get(ii, &self.txns[ti], &key),
            };
            if strict && existing.is_some() {
                return Err(MemDBError::EntryExists);
            }
            if must_exist && existing.is_none() {
                return Err(MemDBError::EntryDoesNotExist);
            }
        }
        match tio {
            None => {
                if self.seq == u64::MAX {
                    return Err(MemDBError::Failure);
                }
                self.commit_single(ii, &key, val);
                Ok(())
            },
            Some(ti) => {
                self.buffer_write(ti, ii, &key, val);
                Ok(())
            },
        }
    }

    /// Commit a transaction: validate first-committer-wins (no other commit
    /// touched a key this transaction wrote since its snapshot), then apply
    /// all buffered writes as one atomic step under a fresh commit sequence
    /// number.  On a conflict the commit fails and the transaction is left
    /// aborted; its writes never become visible.
    #[verifier::rlimit(50)]
    pub fn commit_transaction(&mut self, txn: u64) -> (r: MemDBResult<()>)
        requires
            old(self).inv(),
        ensures
            final(self).inv(),
            match r {
                Ok(()) => has_txn(old(self)@.txns, txn as int) && ({
                    let t = txn_of(old(self)@.txns, txn as int);
                    &&& !txn_conflicts(old(self)@, t)
                    &&& old(self)@.seq < u64::MAX
                    &&& commit_apply_post(old(self)@, final(self)@, t)
                    &&& final(self)@.txns == old(self)@.txns.remove(
                        txn_pos(old(self)@.txns, txn as int),
                    )
                }),
                Err(e) => (e == MemDBError::TransactionDoesNotExist && !has_txn(
                    old(self)@.txns,
                    txn as int,
                ) && final(self)@ == old(self)@) || (e == MemDBError::Failure && has_txn(
                    old(self)@.txns,
                    txn as int,
                ) && (txn_conflicts(old(self)@, txn_of(old(self)@.txns, txn as int)) || old(
                    self,
                )@.seq == u64::MAX) && final(self)@ == (DbV {
                    txns: old(self)@.txns.remove(txn_pos(old(self)@.txns, txn as int)),
                    ..old(self)@
                })),
            },
    {
        let ti = match self.find_txn(txn) {
            None => {
                return Err(MemDBError::TransactionDoesNotExist);
            },
            Some(ti) => ti,
        };
        let ghost pre = self@;
        let ghost tv = pre.txns[ti as int];
        proof {
            lemma_txn_pos(pre.txns, txn as int, ti as int);
            assert(tv == txn_of(pre.txns, txn as int));
            assert(txn_wf(pre, tv));
        }
        // Validation: first committer wins.
        let nw = self.txns[ti].writes.len();
        let mut conflict = false;
        let mut j: usize = 0;
        while j < nw
            invariant
                j <= nw,
                self@ == pre,
                pre == old(self)@,
                db_wf(pre),
                ti < pre.txns.len(),
                tv == pre.txns[ti as int],
                nw == tv.writes.len(),
                !conflict ==> forall|q: int|
                    0 <= q < j ==> !key_written_after(
                        index_of(pre.indices, (#[trigger] tv.writes[q]).iname),
                        tv.writes[q].key,
                        tv.snapshot,
                    ),
                conflict ==> txn_conflicts(pre, tv),
            decreases nw - j,
        {
            if !conflict {
                proof {
                    assert(txn_wf(pre, tv));
                    assert(has_index(pre.indices, tv.writes[j as int].iname));
                }
                let ii = match self.find_index(self.txns[ti].writes[j].iname.as_str()) {
                    Some(ii) => ii,
                    None => {
                        // Never reached: every buffered write names a
                        // registered index, and drops are blocked while a
                        // transaction still writes to one.
                        proof {
                            assert(false);
                        }
                        0
                    },
                };
                proof {
                    assert(index_of(pre.indices, tv.writes[j as int].iname)
                        == pre.indices[ii as int].index);
                    assert(index_wf(pre.indices[ii as int].index, pre.seq));
                }
                if self.indices[ii].index.written_after(
                    &self.txns[ti].writes[j].key,
                    self.txns[ti].snapshot,
                ) {
                    conflict = true;
                    proof {
                        assert(key_written_after(
                            index_of(pre.indices, tv.writes[j as int].iname),
                            tv.writes[j as int].key,
                            tv.snapshot,
                        ));
                        assert(txn_conflicts(pre, tv));
                    }
                }
            }
            j = j + 1;
        }
        if conflict {
            self.remove_txn_at(ti);
            return Err(MemDBError::Failure);
        }
        proof {
            assert forall|q: int| 0 <= q < tv.writes.len() implies !key_written_after(
                index_of(pre.indices, (#[trigger] tv.writes[q]).iname),
                tv.writes[q].key,
                tv.snapshot,
            ) by {}
            assert(!txn_conflicts(pre, tv));
        }
        if self.seq == u64::MAX {
            self.remove_txn_at(ti);
            return Err(MemDBError::Failure);
        }
        // Apply: all buffered writes become visible under one sequence
        // number, atomically for every reader that follows.
        let s = self.seq + 1;
        let mut j: usize = 0;
        proof {
            assert forall|i: int| 0 <= i < self@.indices.len() implies index_wf(
                (#[trigger] self@.indices[i]).index,
                s as int,
            ) by {
                lemma_index_wf_mono(pre.indices[i].index, pre.seq, s as int);
            }
            assert forall|i: int| 0 <= i < pre.indices.len() implies #[trigger] idx_map_at(
                self@.indices[i].index,
                s as int,
            ) == overlay(
                idx_map_at(pre.indices[i].index, pre.seq),
                tv.writes.take(0),
                pre.indices[i].name,
            ) by {
                assert(tv.writes.take(0) =~= Seq::<WriteV>::empty());
                lemma_idx_map_high(pre.indices[i].index, pre.seq, s as int);
            }
        }
        while j < nw
            invariant
                j <= nw,
                pre == old(self)@,
                db_wf(pre),
                pre.seq < u64::MAX,
                s == pre.seq + 1,
                ti < pre.txns.len(),
                tv == pre.txns[ti as int],
                nw == tv.writes.len(),
                txn_wf(pre, tv),
                self@.seq == pre.seq,
                self@.next_txn == pre.next_txn,
                self@.txns == pre.txns,
                registry_shape_eq(pre.indices, self@.indices),
                names_unique(self@.indices),
                forall|i: int| 0 <= i < self@.indices.len() ==> index_wf(
                    (#[trigger] self@.indices[i]).index,
                    s as int,
                ),
                forall|i: int, s2: int|
                    0 <= i < pre.indices.len() && 0 <= s2 <= pre.seq ==> #[trigger] idx_map_at(
                        self@.indices[i].index,
                        s2,
                    ) == idx_map_at(pre.indices[i].index, s2),
                forall|i: int|
                    0 <= i < pre.indices.len() ==> #[trigger] idx_map_at(
                        self@.indices[i].index,
                        s as int,
                    ) == overlay(
                        idx_map_at(pre.indices[i].index, pre.seq),
                        tv.writes.take(j as int),
                        pre.indices[i].name,
                    ),
                forall|i: int, k2: KeyV, s2: int|
                    0 <= i < pre.indices.len() ==> #[trigger] key_written_after(
                        self@.indices[i].index,
                        k2,
                        s2,
                    ) == (key_written_after(pre.indices[i].index, k2, s2) || (has_write(
                        tv.writes.take(j as int),
                        self@.indices[i].name,
                        k2,
                    ) && s2 < s)),
            decreases nw - j,
        {
            let ghost w = tv.writes[j as int];
            let ghost cur = self@;
            proof {
                assert(txn_wf(pre, tv));
                assert(has_index(pre.indices, w.iname));
                lemma_registry_shape(pre.indices, self@.indices);
            }
            let ii = match self.find_index(self.txns[ti].writes[j].iname.as_str()) {
                Some(ii) => ii,
                None => {
                    // Never reached: see the validation loop above.
                    proof {
                        assert(false);
                    }
                    0
                },
            };
            let wkey = self.txns[ti].writes[j].key.clone();
            let wval: Option<Value> = match &self.txns[ti].writes[j].val {
                Some(v) => Some(clone_value(v)),
                None => None,
            };
            let ghost nm = w.iname;
            proof {
                assert(wkey@ == w.key);
                assert((match wval {
                    Some(ref v) => Some(v@),
                    None => None::<Seq<u8>>,
                }) == w.val);
                assert(index_pos(cur.indices, nm) == ii as int);
                assert(index_pos(pre.indices, nm) == ii as int);
                assert(cur.indices[ii as int].name == nm);
                assert(index_of(pre.indices, nm) == pre.indices[ii as int].index);
                assert(same_variant(w.key, pre.indices[ii as int].index.key_type));
                assert(same_variant(w.key, cur.indices[ii as int].index.key_type));
                // The written key is fresh at this commit's sequence number.
                if key_written_after(pre.indices[ii as int].index, w.key, pre.seq) {
                    let ix = pre.indices[ii as int].index;
                    let (a, b): (int, int) = choose|a: int, b: int|
                        0 <= a < ix.entries.len() && (#[trigger] ix.entries[a]).key == w.key && 0
                            <= b < ix.entries[a].versions.len() && (
                        #[trigger] ix.entries[a].versions[b]).seq > pre.seq;
                    assert(versions_wf(ix.entries[a].versions, pre.seq));
                    assert(false);
                }
                if has_write(tv.writes.take(j as int), nm, w.key) {
                    let q = write_pos(tv.writes.take(j as int), nm, w.key);
                    assert(0 <= q < j);
                    assert(tv.writes.take(j as int)[q] == tv.writes[q]);
                    assert(tv.writes[q].iname == nm && tv.writes[q].key == w.key);
                    assert(!(tv.writes[q].iname == tv.writes[j as int].iname && tv.writes[q].key
                        == tv.writes[j as int].key));
                    assert(false);
                }
                assert(!key_written_after(cur.indices[ii as int].index, w.key, s - 1));
            }
            self.indices[ii].index.put_version(&wkey, wval, s);
            j = j + 1;
            proof {
                let p = ii as int;
                let ixs2 = self@.indices;
                assert(forall|i: int| 0 <= i < ixs2.len() && i != p ==> (#[trigger] ixs2[i])
                    == cur.indices[i]);
                assert(ixs2[p].name == nm);
                assert(registry_shape_eq(pre.indices, ixs2));
                assert(names_unique(ixs2));
                assert(tv.writes.take(j as int) =~= tv.writes.take(j - 1).push(w));
                // Per-index-name bookkeeping of the partially applied batch.
                assert forall|n2: Seq<char>, k2: KeyV|
                    has_write(tv.writes.take(j as int), n2, k2) == (has_write(
                        tv.writes.take(j - 1),
                        n2,
                        k2,
                    ) || (n2 == nm && k2 == w.key)) by {
                    if has_write(tv.writes.take(j - 1), n2, k2) {
                        let q = write_pos(tv.writes.take(j - 1), n2, k2);
                        assert(tv.writes.take(j as int)[q] == tv.writes.take(j - 1)[q]);
                        assert(has_write(tv.writes.take(j as int), n2, k2));
                    }
                    if n2 == nm && k2 == w.key {
                        assert(tv.writes.take(j as int)[j - 1] == w);
                        assert(has_write(tv.writes.take(j as int), n2, k2));
                    }
                    if has_write(tv.writes.take(j as int), n2, k2) {
                        let q = write_pos(tv.writes.take(j as int), n2, k2);
                        if q < j - 1 {
                            assert(tv.writes.take(j - 1)[q] == tv.writes.take(j as int)[q]);
                            assert(has_write(tv.writes.take(j - 1), n2, k2));
                        } else {
                            assert(tv.writes.take(j as int)[q] == w);
                        }
                    }
                }
                assert forall|i: int|
                    0 <= i < pre.indices.len() implies #[trigger] idx_map_at(
                    ixs2[i].index,
                    s as int,
                ) == overlay(
                    idx_map_at(pre.indices[i].index, pre.seq),
                    tv.writes.take(j as int),
                    pre.indices[i].name,
                ) by {
                    let base0 = idx_map_at(pre.indices[i].index, pre.seq);
                    let n_i = pre.indices[i].name;
                    lemma_overlay_push(base0, tv.writes.take(j - 1), w, n_i);
                    if i == p {
                        assert(n_i == nm);
                    } else {
                        assert(ixs2[i] == cur.indices[i]);
                        assert(n_i != nm);
                    }
                }
                assert forall|i: int, k2: KeyV, s2: int|
                    0 <= i < pre.indices.len() implies #[trigger] key_written_after(
                    ixs2[i].index,
                    k2,
                    s2,
                ) == (key_written_after(pre.indices[i].index, k2, s2) || (has_write(
                    tv.writes.take(j as int),
                    ixs2[i].name,
                    k2,
                ) && s2 < s)) by {
                    if i != p {
                        assert(ixs2[i] == cur.indices[i]);
                        assert(ixs2[i].name != nm);
                    }
                }
            }
        }
        proof {
            assert(tv.writes.take(nw as int) =~= tv.writes);
        }
        let ghost applied = self@;
        self.seq = s;
        proof {
            let ixs2 = self@.indices;
            assert(self@ == (DbV { seq: s as int, indices: applied.indices, ..pre }));
            lemma_registry_shape(pre.indices, ixs2);
            assert forall|i: int| 0 <= i < self@.txns.len() implies txn_wf(
                self@,
                #[trigger] self@.txns[i],
            ) by {
                let t2 = self@.txns[i];
                assert(txn_wf(pre, t2));
                assert forall|ww: int| 0 <= ww < t2.writes.len() implies has_index(
                    ixs2,
                    (#[trigger] t2.writes[ww]).iname,
                ) && same_variant(t2.writes[ww].key, index_of(ixs2, t2.writes[ww].iname).key_type)
                    by {
                    assert(has_index(pre.indices, t2.writes[ww].iname));
                }
            }
            assert(db_wf(self@));
            // The committed map of every index is the old one with the
            // whole write set applied.
            assert forall|n2: Seq<char>| #[trigger] has_index(pre.indices, n2) implies
                committed_map(self@, n2) == overlay(committed_map(pre, n2), tv.writes, n2) by {
                let q = index_pos(pre.indices, n2);
                assert(0 <= q < pre.indices.len() && pre.indices[q].name == n2);
                assert(index_pos(ixs2, n2) == q);
                assert(idx_map_at(ixs2[q].index, s as int) == overlay(
                    idx_map_at(pre.indices[q].index, pre.seq),
                    tv.writes,
                    n2,
                ));
            }
            assert forall|n2: Seq<char>, k2: KeyV, s2: int|
                has_index(pre.indices, n2) implies #[trigger] key_written_after(
                index_of(ixs2, n2),
                k2,
                s2,
            ) == (key_written_after(index_of(pre.indices, n2), k2, s2) || (has_write(
                tv.writes,
                n2,
                k2,
            ) && s2 <= pre.seq)) by {
                let q = index_pos(pre.indices, n2);
                assert(0 <= q < pre.indices.len() && pre.indices[q].name == n2);
                assert(index_pos(ixs2, n2) == q);
                assert(key_written_after(ixs2[q].index, k2, s2) == (key_written_after(
                    pre.indices[q].index,
                    k2,
                    s2,
                ) || (has_write(tv.writes, n2, k2) && s2 < s)));
            }
            assert(history_preserved(pre.indices, self@.indices, pre.seq));
            assert(commit_apply_post(pre, self@, tv));
        }
        let ghost bumped = self@;
        self.remove_txn_at(ti);
        proof {
            assert(self@.indices == bumped.indices);
            assert(self@.seq == bumped.seq);
            assert(commit_apply_post(pre, self@, tv));
        }
        Ok(())
    }

    /// All records of the caller's view whose keys fall between `low` and
    /// `high` (each bound inclusive or exclusive), in ascending key order.
    pub fn range(
        &self,
        index: &str,
        low: &Key,
        high: &Key,
        incl_low: bool,
        incl_high: bool,
        txn: Option<u64>,
    ) -> (r: MemDBResult<Vec<Record>>)
        requires
            self.inv(),
        ensures
            match r {
                Ok(recs) => ({
                    let m = read_map(self@, index@, tid_of(txn));
                    let rv = recs@.map_values(|rc: Record| rc@);
                    &&& has_index(self@.indices, index@)
                    &&& txn_opt_valid(self@, tid_of(txn))
                    &&& same_variant(low@, index_of(self@.indices, index@).key_type)
                    &&& same_variant(high@, index_of(self@.indices, index@).key_type)
                    &&& recs_sorted(rv)
                    &&& forall|i: int|
                        0 <= i < rv.len() ==> in_range(
                            (#[trigger] rv[i]).key,
                            low@,
                            high@,
                            incl_low,
                            incl_high,
                        ) && m.contains_key(rv[i].key) && rv[i].value == m[rv[i].key]
                    &&& forall|k: KeyV|
                        m.contains_key(k) && in_range(k, low@, high@, incl_low, incl_high)
                            ==> recs_has(rv, k)
                }),
                Err(e) => (e == MemDBError::EntryDoesNotExist && !has_index(
                    self@.indices,
                    index@,
                )) || (e == MemDBError::TransactionDoesNotExist && has_index(self@.indices, index@)
                    && !txn_opt_valid(self@, tid_of(txn))) || (e == MemDBError::Failure
                    && has_index(self@.indices, index@) && txn_opt_valid(self@, tid_of(txn)) && !(
                same_variant(low@, index_of(self@.indices, index@).key_type) && same_variant(
                    high@,
                    index_of(self@.indices, index@).key_type,
                ))),
            },
    {
        let ii = match self.find_index(index) {
            None => {
                return Err(MemDBError::EntryDoesNotExist);
            },
            Some(ii) => ii,
        };
        proof {
            assert(self@.indices[ii as int].name == index@);
            assert(index_of(self@.indices, index@) == self@.indices[ii as int].index);
        }
        let tio: Option<usize> = match txn {
            None => None,
            Some(id) => {
                match self.find_txn(id) {
                    None => {
                        return Err(MemDBError::TransactionDoesNotExist);
                    },
                    Some(ti) => {
                        proof {
                            assert(txn_of(self@.txns, id as int) == self@.txns[ti as int]);
                            assert(self@.txns[ti as int].id == id as int);
                            assert(txn_wf(self@, self@.txns[ti as int]));
                        }
                        Some(ti)
                    },
                }
            },
        };
        if !variants_match(low, self.indices[ii].index.key_exemplar()) || !variants_match(
            high,
            self.indices[ii].index.key_exemplar(),
        ) {
            return Err(MemDBError::Failure);
        }
        let ghost kt = self@.indices[ii as int].index.key_type;
        let ghost es = self@.indices[ii as int].index.entries;
        let ghost m = read_map(self@, index@, tid_of(txn));
        let ghost nm = self@.indices[ii as int].name;
        proof {
            match tio {
                None => {
                    assert(m == idx_map_at(self@.indices[ii as int].index, self@.seq));
                },
                Some(ti) => {
                    assert(m == overlay(
                        idx_map_at(
                            self@.indices[ii as int].index,
                            self@.txns[ti as int].snapshot,
                        ),
                        self@.txns[ti as int].writes,
                        nm,
                    ));
                },
            }
        }
        let count = self.indices[ii].index.entry_count();
        let mut out: Vec<Record> = Vec::new();
        let mut e: usize = 0;
        while e < count
            invariant
                e <= count,
                self.inv(),
                ii < self@.indices.len(),
                nm == self@.indices[ii as int].name,
                nm == index@,
                kt == self@.indices[ii as int].index.key_type,
                es == self@.indices[ii as int].index.entries,
                count == es.len(),
                txn_opt_valid(self@, tid_of(txn)),
                m == read_map(self@, index@, tid_of(txn)),
                same_variant(low@, kt),
                same_variant(high@, kt),
                match tio {
                    None => tid_of(txn) is None && m == idx_map_at(
                        self@.indices[ii as int].index,
                        self@.seq,
                    ),
                    Some(ti) => ti < self@.txns.len() && tid_of(txn) == Some(
                        self@.txns[ti as int].id,
                    ) && m == overlay(
                        idx_map_at(
                            self@.indices[ii as int].index,
                            self@.txns[ti as int].snapshot,
                        ),
                        self@.txns[ti as int].writes,
                        nm,
                    ),
                },
                ({
                    let rv = out@.map_values(|rc: Record| rc@);
                    &&& recs_sorted(rv)
                    &&& forall|i: int|
                        0 <= i < rv.len() ==> in_range(
                            (#[trigger] rv[i]).key,
                            low@,
                            high@,
                            incl_low,
                            incl_high,
                        ) && m.contains_key(rv[i].key) && rv[i].value == m[rv[i].key] && has_key(
                            es,
                            rv[i].key,
                        ) && same_variant(rv[i].key, kt)
                    &&& forall|i: int, q: int|
                        0 <= i < rv.len() && e <= q < count ==> key_lt_v(
                            (#[trigger] rv[i]).key,
                            (#[trigger] es[q]).key,
                        )
                    &&& forall|k: KeyV|
                        m.contains_key(k) && in_range(k, low@, high@, incl_low, incl_high)
                            && has_key(es.take(e as int), k) ==> recs_has(rv, k)
                }),
            decreases count - e,
        {
            let ghost rv0 = out@.map_values(|rc: Record| rc@);
            let k = self.indices[ii].index.key_at(e).clone();
            proof {
                assert(k@ == es[e as int].key);
                assert(index_wf(self@.indices[ii as int].index, self@.seq));
            }
            if key_in_range(&k, low, high, incl_low, incl_high) {
                let got: Option<Value> = match tio {
                    None => self.indices[ii].index.read_at(&k, self.seq),
                    Some(ti) => self.txn_view_get(ii, &self.txns[ti], &k),
                };
                match got {
                    Some(v) => {
                        out.push(Record { key: k, value: v });
                        proof {
                            let rv = out@.map_values(|rc: Record| rc@);
                            assert(rv =~= rv0.push(
                                RecordV { key: es[e as int].key, value: v@ },
                            ));
                        }
                    },
                    None => {},
                }
            }
            proof {
                let rv = out@.map_values(|rc: Record| rc@);
                assert(es.take(e + 1) =~= es.take(e as int).push(es[e as int]));
                assert forall|k2: KeyV|
                    m.contains_key(k2) && in_range(k2, low@, high@, incl_low, incl_high)
                        && has_key(es.take(e + 1), k2) implies recs_has(rv, k2) by {
                    let q = choose|q: int|
                        0 <= q < es.take(e + 1).len() && (#[trigger] es.take(e + 1)[q]).key == k2;
                    if q < e {
                        assert(es.take(e as int)[q].key == k2);
                        assert(has_key(es.take(e as int), k2));
                        assert(recs_has(rv0, k2));
                        let w = choose|i: int| 0 <= i < rv0.len() && (#[trigger] rv0[i]).key == k2;
                        assert(rv[w] == rv0[w]);
                    } else {
                        assert(es[e as int].key == k2);
                        assert(rv[rv.len() - 1].key == k2);
                    }
                }
            }
            e = e + 1;
        }
        proof {
            assert(es.take(count as int) =~= es);
        }
        match tio {
            None => {
                proof {
                    let rv = out@.map_values(|rc: Record| rc@);
                    assert forall|k2: KeyV|
                        m.contains_key(k2) && in_range(k2, low@, high@, incl_low, incl_high)
                            implies recs_has(rv, k2) by {
                        assert(has_key(es, k2));
                    }
                }
                Ok(out)
            },
            Some(ti) => {
                let t = &self.txns[ti];
                let ghost ws = t@.writes;
                let ghost base = idx_map_at(
                    self@.indices[ii as int].index,
                    self@.txns[ti as int].snapshot,
                );
                proof {
                    assert(txn_wf(self@, self@.txns[ti as int]));
                    assert(index_wf(self@.indices[ii as int].index, self@.seq));
                    assert forall|w: int|
                        0 <= w < ws.len() implies same_variant((#[trigger] ws[w]).key, kt)
                        || ws[w].iname != nm by {
                        if ws[w].iname == nm {
                            assert(index_of(self@.indices, nm) == self@.indices[ii as int].index);
                        }
                    }
                }
                let nw = t.writes.len();
                let mut j: usize = 0;
                while j < nw
                    invariant
                        j <= nw,
                        self.inv(),
                        ii < self@.indices.len(),
                        ti < self@.txns.len(),
                        t == self.txns[ti as int],
                        t@ == self@.txns[ti as int],
                        ws == t@.writes,
                        nw == ws.len(),
                        writes_unique(ws),
                        nm == self@.indices[ii as int].name,
                        nm == index@,
                        kt == self@.indices[ii as int].index.key_type,
                        es == self@.indices[ii as int].index.entries,
                        entries_sorted(es),
                        txn_opt_valid(self@, tid_of(txn)),
                        tid_of(txn) == Some(t@.id),
                        m == read_map(self@, index@, tid_of(txn)),
                        base == idx_map_at(
                            self@.indices[ii as int].index,
                            self@.txns[ti as int].snapshot,
                        ),
                        m == overlay(base, ws, nm),
                        same_variant(low@, kt),
                        same_variant(high@, kt),
                        forall|w: int| 0 <= w < ws.len() ==> same_variant(
                            (#[trigger] ws[w]).key,
                            kt,
                        ) || ws[w].iname != nm,
                        ({
                            let rv = out@.map_values(|rc: Record| rc@);
                            &&& recs_sorted(rv)
                            &&& forall|i: int|
                                0 <= i < rv.len() ==> in_range(
                                    (#[trigger] rv[i]).key,
                                    low@,
                                    high@,
                                    incl_low,
                                    incl_high,
                                ) && m.contains_key(rv[i].key) && rv[i].value == m[rv[i].key]
                                    && same_variant(rv[i].key, kt) && (has_key(es, rv[i].key)
                                    || has_write(ws.take(j as int), nm, rv[i].key))
                            &&& forall|k2: KeyV|
                                m.contains_key(k2) && in_range(
                                    k2,
                                    low@,
                                    high@,
                                    incl_low,
                                    incl_high,
                                ) && (has_key(es, k2) || has_write(ws.take(j as int), nm, k2))
                                    ==> recs_has(rv, k2)
                        }),
                    decreases nw - j,
                {
                    let ghost rv0 = out@.map_values(|rc: Record| rc@);
                    let ghost w = ws[j as int];
                    proof {
                        assert(ws.take(j + 1) =~= ws.take(j as int).push(w));
                        assert forall|n2: Seq<char>, k2: KeyV|
                            has_write(ws.take(j + 1), n2, k2) == (has_write(
                                ws.take(j as int),
                                n2,
                                k2,
                            ) || (n2 == w.iname && k2 == w.key)) by {
                            if has_write(ws.take(j as int), n2, k2) {
                                let q = write_pos(ws.take(j as int), n2, k2);
                                assert(ws.take(j + 1)[q] == ws.take(j as int)[q]);
                            }
                            if n2 == w.iname && k2 == w.key {
                                assert(ws.take(j + 1)[j as int] == w);
                            }
                            if has_write(ws.take(j + 1), n2, k2) {
                                let q = write_pos(ws.take(j + 1), n2, k2);
                                if q < j {
                                    assert(ws.take(j as int)[q] == ws.take(j + 1)[q]);
                                } else {
                                    assert(ws.take(j + 1)[q] == w);
                                }
                            }
                        }
                    }
                    let matches_index = str_eq(
                        t.writes[j].iname.as_str(),
                        self.indices[ii].name.as_str(),
                    );
                    if matches_index {
                        let wk = t.writes[j].key.clone();
                        proof {
                            assert(wk@ == w.key);
                            assert(w.iname == nm);
                            assert(same_variant(w.key, kt));
                        }
                        if key_in_range(&wk, low, high, incl_low, incl_high) {
                            if !self.indices[ii].index.has_entry(&wk) {
                                match &t.writes[j].val {
                                    Some(v) => {
                                        proof {
                                            lemma_write_pos(ws, nm, w.key, j as int);
                                            lemma_overlay_written(base, ws, nm, w.key);
                                            assert(m.contains_key(w.key) && m[w.key] == v@);
                                            assert forall|i: int|
                                                0 <= i < rv0.len() implies (#[trigger] rv0[i]).key
                                                != w.key by {
                                                if has_write(ws.take(j as int), nm, rv0[i].key) {
                                                    let q = write_pos(
                                                        ws.take(j as int),
                                                        nm,
                                                        rv0[i].key,
                                                    );
                                                    assert(ws.take(j as int)[q] == ws[q]);
                                                    if rv0[i].key == w.key {
                                                        assert(ws[q].iname == ws[j as int].iname
                                                            && ws[q].key == ws[j as int].key);
                                                        assert(false);
                                                    }
                                                }
                                            }
                                        }
                                        let rec = Record { key: wk, value: clone_value(v) };
                                        proof {
                                            assert(rec@ == (RecordV { key: w.key, value: v@ }));
                                            assert forall|i: int| 0 <= i < out@.len() implies
                                                same_variant(
                                                (#[trigger] out@[i])@.key,
                                                rec@.key,
                                            ) && out@[i]@.key != rec@.key by {
                                                assert(out@[i]@ == rv0[i]);
                                                assert(same_variant(rv0[i].key, kt));
                                            }
                                        }
                                        insert_record_sorted(&mut out, rec);
                                        proof {
                                            let rv = out@.map_values(|rc: Record| rc@);
                                            assert(recs_has(rv, w.key));
                                            assert forall|k2: KeyV|
                                                m.contains_key(k2) && in_range(
                                                    k2,
                                                    low@,
                                                    high@,
                                                    incl_low,
                                                    incl_high,
                                                ) && (has_key(es, k2) || has_write(
                                                    ws.take(j + 1),
                                                    nm,
                                                    k2,
                                                )) implies recs_has(rv, k2) by {
                                                if k2 != w.key {
                                                    assert(has_key(es, k2) || has_write(
                                                        ws.take(j as int),
                                                        nm,
                                                        k2,
                                                    ));
                                                    assert(recs_has(rv0, k2));
                                                    let q = choose|q: int|
                                                        0 <= q < rv0.len() && (
                                                        #[trigger] rv0[q]).key == k2;
                                                    let i2 = choose|i2: int|
                                                        0 <= i2 < rv.len() && (#[trigger] rv[i2])
                                                            == rv0[q];
                                                    assert(rv[i2].key == k2);
                                                }
                                            }
                                        }
                                    },
                                    None => {
                                        proof {
                                            lemma_write_pos(ws, nm, w.key, j as int);
                                            lemma_overlay_written(base, ws, nm, w.key);
                                            assert(!m.contains_key(w.key));
                                        }
                                    },
                                }
                            } else {
                                proof {
                                    assert(has_key(es, w.key));
                                }
                            }
                        } else {
                            proof {
                                assert(!in_range(w.key, low@, high@, incl_low, incl_high));
                            }
                        }
                    }
                    proof {
                        let rv = out@.map_values(|rc: Record| rc@);
                        assert forall|k2: KeyV|
                            m.contains_key(k2) && in_range(k2, low@, high@, incl_low, incl_high)
                                && (has_key(es, k2) || has_write(ws.take(j + 1), nm, k2)) implies
                            recs_has(rv, k2) by {
                            if !(has_key(es, k2) || has_write(ws.take(j as int), nm, k2)) {
                                assert(has_write(ws.take(j + 1), nm, k2));
                                assert(k2 == w.key && w.iname == nm);
                            }
                        }
                    }
                    j = j + 1;
                }
                proof {
                    let rv = out@.map_values(|rc: Record| rc@);
                    assert(ws.take(nw as int) =~= ws);
                    assert forall|k2: KeyV|
                        m.contains_key(k2) && in_range(k2, low@, high@, incl_low, incl_high)
                            implies recs_has(rv, k2) by {
                        if !has_write(ws, nm, k2) {
                            lemma_overlay_unwritten(base, ws, nm, k2);
                            assert(base.contains_key(k2));
                            assert(has_key(es, k2));
                        } else {
                            assert(has_write(ws.take(nw as int), nm, k2));
                        }
                    }
                }
                Ok(out)
            },
        }
    }

    /// Discard a transaction's buffered writes; the shared state is
    /// untouched.  Always succeeds on an active transaction.
    pub fn abort_transaction(&mut self, txn: u64) -> (r: MemDBResult<()>)
        requires
            old(self).inv(),
        ensures
            final(self).inv(),
            match r {
                Ok(()) => has_txn(old(self)@.txns, txn as int) && final(self)@ == (DbV {
                    txns: old(self)@.txns.remove(txn_pos(old(self)@.txns, txn as int)),
                    ..old(self)@
                }),
                Err(e) => e == MemDBError::TransactionDoesNotExist && !has_txn(
                    old(self)@.txns,
                    txn as int,
                ) && final(self)@ == old(self)@,
            },
    {
        match self.find_txn(txn) {
            None => Err(MemDBError::TransactionDoesNotExist),
            Some(ti) => {
                self.remove_txn_at(ti);
                Ok(())
            },
        }
    }
}

/// Does `k` fall between the two bounds, as configured?
fn key_in_range(k: &Key, low: &Key, high: &Key, incl_low: bool, incl_high: bool) -> (r: bool)
    ensures
        r == in_range(k@, low@, high@, incl_low, incl_high),
{
    let lo_ok = if incl_low {
        !key_lt(k, low)
    } else {
        key_lt(low, k)
    };
    let hi_ok = if incl_high {
        !key_lt(high, k)
    } else {
        key_lt(k, high)
    };
    lo_ok && hi_ok
}

/// Insert a record with a fresh key into a key-sorted record list, keeping
/// it sorted.
fn insert_record_sorted(out: &mut Vec<Record>, rec: Record)
    requires
        recs_sorted(old(out)@.map_values(|rc: Record| rc@)),
        forall|i: int|
            0 <= i < old(out)@.len() ==> same_variant((#[trigger] old(out)@[i])@.key, rec@.key)
                && old(out)@[i]@.key != rec@.key,
    ensures
        ({
            let oldv = old(out)@.map_values(|rc: Record| rc@);
            let newv = final(out)@.map_values(|rc: Record| rc@);
            &&& newv.len() == oldv.len() + 1
            &&& recs_sorted(newv)
            &&& forall|i: int|
                0 <= i < newv.len() ==> ((#[trigger] newv[i]) == rec@ || exists|q: int|
                    0 <= q < oldv.len() && (#[trigger] oldv[q]) == newv[i])
            &&& forall|q: int|
                0 <= q < oldv.len() ==> exists|i: int|
                    0 <= i < newv.len() && (#[trigger] newv[i]) == (#[trigger] oldv[q])
            &&& recs_has(newv, rec@.key)
        }),
{
    let ghost oldv = out@.map_values(|rc: Record| rc@);
    let n = out.len();
    let mut p: usize = 0;
    while p < n && key_lt(&out[p].key, &rec.key)
        invariant
            p <= n,
            n == out@.len(),
            out@.map_values(|rc: Record| rc@) == oldv,
            recs_sorted(oldv),
            oldv.len() == n,
            forall|i: int|
                0 <= i < oldv.len() ==> same_variant((#[trigger] oldv[i]).key, rec@.key)
                    && oldv[i].key != rec@.key,
            forall|q: int| 0 <= q < p ==> key_lt_v((#[trigger] oldv[q]).key, rec@.key),
        decreases n - p,
    {
        p = p + 1;
    }
    proof {
        if p < n {
            lemma_key_lt_connected(rec@.key, oldv[p as int].key);
            assert(key_lt_v(rec@.key, oldv[p as int].key));
        }
        assert forall|q: int| p <= q < n implies key_lt_v(rec@.key, (#[trigger] oldv[q]).key) by {
            if q > p {
                lemma_key_lt_trans(rec@.key, oldv[p as int].key, oldv[q].key);
            }
        }
    }
    let ghost rv = rec@;
    out.insert(p, rec);
    proof {
        let newv = out@.map_values(|rc: Record| rc@);
        assert(newv =~= oldv.insert(p as int, rv));
        assert(forall|i: int| 0 <= i < p ==> (#[trigger] newv[i]) == oldv[i]);
        assert(newv[p as int] == rv);
        assert(forall|i: int| p < i < newv.len() ==> (#[trigger] newv[i]) == oldv[i - 1]);
        assert forall|i: int, j: int| 0 <= i < j < newv.len() implies key_lt_v(
            (#[trigger] newv[i]).key,
            (#[trigger] newv[j]).key,
        ) by {
            if i == p {
                assert(newv[j] == oldv[j - 1]);
            } else if j == p {
                assert(newv[i] == oldv[i]);
            } else if i < p && j > p {
                assert(key_lt_v(oldv[i].key, rv.key) && key_lt_v(rv.key, oldv[j - 1].key));
                if i == j - 1 {
                    lemma_key_lt_asym(oldv[i].key, rv.key);
                    assert(false);
                }
            }
        }
        assert forall|q: int| 0 <= q < oldv.len() implies exists|i: int|
            0 <= i < newv.len() && (#[trigger] newv[i]) == (#[trigger] oldv[q]) by {
            if q < p {
                assert(newv[q] == oldv[q]);
            } else {
                assert(newv[q + 1] == oldv[q]);
            }
        }
        assert(recs_has(newv, rv.key)) by {
            assert(newv[p as int].key == rv.key);
        }
    }
}

} // verus!
