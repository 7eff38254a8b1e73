//! The engine's guarantees, stated and proved over the model: atomic
//! visibility of commits, isolation of disjoint transactions, conflict
//! detection, and the point-lookup round trips.

use vstd::prelude::*;

use crate::keys::KeyV;
use crate::model::{
    buffered_write_post, commit_apply_post, committed_map, db_wf, has_index, has_txn, has_write,
    index_of, key_written_after, lemma_overlay_set_write, lemma_overlay_unwritten,
    lemma_overlay_written, lemma_registry_shape, lemma_txn_pos, names_unique, overlay, read_map,
    single_commit_post, txn_conflicts, txn_of, txn_pos, txn_wf, write_for, write_pos,
    writes_unique, DbV, TxnV, WriteV,
};

verus! {

/// Atomic visibility: once a commit has succeeded, a reader of the new
/// committed state sees every buffered write of the transaction — the
/// value of each key it wrote, the absence of each key it removed — and
/// sees every untouched key exactly as before.  No reader can observe a
/// proper subset of the write set.
pub proof fn lemma_commit_atomic_visibility(db: DbV, db2: DbV, t: TxnV, n: Seq<char>, k: KeyV)
    requires
        writes_unique(t.writes),
        has_index(db.indices, n),
        commit_apply_post(db, db2, t),
    ensures
        has_write(t.writes, n, k) ==> (match write_for(t.writes, n, k).val {
            Some(v) => committed_map(db2, n).contains_key(k) && committed_map(db2, n)[k] == v,
            None => !committed_map(db2, n).contains_key(k),
        }),
        !has_write(t.writes, n, k) ==> committed_map(db2, n).contains_key(k) == committed_map(
            db,
            n,
        ).contains_key(k) && (committed_map(db, n).contains_key(k) ==> committed_map(db2, n)[k]
            == committed_map(db, n)[k]),
{
    if has_write(t.writes, n, k) {
        lemma_overlay_written(committed_map(db, n), t.writes, n, k);
    } else {
        lemma_overlay_unwritten(committed_map(db, n), t.writes, n, k);
    }
}

/// Two write buffers never write the same (index, key) pair.
pub open spec fn disjoint_writes(w1: Seq<WriteV>, w2: Seq<WriteV>) -> bool {
    forall|i: int, j: int|
        0 <= i < w1.len() && 0 <= j < w2.len() ==> !((#[trigger] w1[i]).iname == (
        #[trigger] w2[j]).iname && w1[i].key == w2[j].key)
}

/// Isolation, first half: a transaction whose write set is disjoint from a
/// committed transaction's write set still passes validation afterwards —
/// transactions over disjoint keys never make each other fail.
pub proof fn lemma_disjoint_commit_no_conflict(db: DbV, db2: DbV, t1: TxnV, t2: TxnV)
    requires
        commit_apply_post(db, db2, t1),
        txn_wf(db, t2),
        disjoint_writes(t1.writes, t2.writes),
        !txn_conflicts(db, t2),
    ensures
        !txn_conflicts(db2, t2),
{
    assert forall|i: int| 0 <= i < t2.writes.len() implies !key_written_after(
        index_of(db2.indices, (#[trigger] t2.writes[i]).iname),
        t2.writes[i].key,
        t2.snapshot,
    ) by {
        let n = t2.writes[i].iname;
        let k = t2.writes[i].key;
        assert(has_index(db.indices, n));
        if has_write(t1.writes, n, k) {
            let q = write_pos(t1.writes, n, k);
            assert(0 <= q < t1.writes.len() && t1.writes[q].iname == n && t1.writes[q].key == k);
            assert(false);
        }
        assert(key_written_after(index_of(db2.indices, n), k, t2.snapshot) == (key_written_after(
            index_of(db.indices, n),
            k,
            t2.snapshot,
        ) || (has_write(t1.writes, n, k) && t2.snapshot <= db.seq)));
    }
}

/// Applying two disjoint write sets to a map commutes.
pub proof fn lemma_overlay_disjoint_commute(
    m: Map<KeyV, Seq<u8>>,
    w1: Seq<WriteV>,
    w2: Seq<WriteV>,
    n: Seq<char>,
)
    requires
        writes_unique(w1),
        writes_unique(w2),
        disjoint_writes(w1, w2),
    ensures
        overlay(overlay(m, w1, n), w2, n) == overlay(overlay(m, w2, n), w1, n),
{
    let a = overlay(overlay(m, w1, n), w2, n);
    let b = overlay(overlay(m, w2, n), w1, n);
    assert forall|k: KeyV| #[trigger] a.dom().contains(k) == b.dom().contains(k) && (
    a.dom().contains(k) ==> a[k] == b[k]) by {
        if has_write(w2, n, k) {
            assert(!has_write(w1, n, k)) by {
                if has_write(w1, n, k) {
                    let i = write_pos(w1, n, k);
                    let j = write_pos(w2, n, k);
                    assert(w1[i].iname == n && w1[i].key == k);
                    assert(w2[j].iname == n && w2[j].key == k);
                }
            }
            lemma_overlay_written(overlay(m, w1, n), w2, n, k);
            lemma_overlay_written(m, w2, n, k);
            lemma_overlay_unwritten(overlay(m, w2, n), w1, n, k);
        } else if has_write(w1, n, k) {
            lemma_overlay_unwritten(overlay(m, w1, n), w2, n, k);
            lemma_overlay_written(m, w1, n, k);
            lemma_overlay_written(overlay(m, w2, n), w1, n, k);
        } else {
            lemma_overlay_unwritten(m, w1, n, k);
            lemma_overlay_unwritten(overlay(m, w1, n), w2, n, k);
            lemma_overlay_unwritten(m, w2, n, k);
            lemma_overlay_unwritten(overlay(m, w2, n), w1, n, k);
        }
    }
    assert(a =~= b);
}

/// Isolation, second half: after two transactions with disjoint write sets
/// commit one after the other, every index reads as the original committed
/// state with both write sets applied — in either order.
pub proof fn lemma_isolation_final_state(
    db: DbV,
    db2: DbV,
    db3: DbV,
    t1: TxnV,
    t2: TxnV,
    n: Seq<char>,
)
    requires
        names_unique(db.indices),
        has_index(db.indices, n),
        writes_unique(t1.writes),
        writes_unique(t2.writes),
        disjoint_writes(t1.writes, t2.writes),
        commit_apply_post(db, db2, t1),
        commit_apply_post(db2, db3, t2),
    ensures
        committed_map(db3, n) == overlay(overlay(committed_map(db, n), t1.writes, n), t2.writes, n),
        committed_map(db3, n) == overlay(overlay(committed_map(db, n), t2.writes, n), t1.writes, n),
{
    lemma_registry_shape(db.indices, db2.indices);
    assert(has_index(db2.indices, n));
    assert(committed_map(db2, n) == overlay(committed_map(db, n), t1.writes, n));
    assert(committed_map(db3, n) == overlay(committed_map(db2, n), t2.writes, n));
    lemma_overlay_disjoint_commute(committed_map(db, n), t1.writes, t2.writes, n);
}

/// Conflict detection: if one transaction committed a write to key `k` of
/// index `n` after another transaction's snapshot was taken, and the other
/// also wrote `k`, the other's commit-time validation fails — by
/// `commit_transaction`'s contract it then returns the conflict `Failure`
/// and its buffered writes never reach the shared state.
pub proof fn lemma_conflict_detected(
    db: DbV,
    db2: DbV,
    t1: TxnV,
    t2: TxnV,
    n: Seq<char>,
    k: KeyV,
    i2: int,
)
    requires
        commit_apply_post(db, db2, t1),
        has_index(db.indices, n),
        has_write(t1.writes, n, k),
        0 <= i2 < t2.writes.len(),
        t2.writes[i2].iname == n,
        t2.writes[i2].key == k,
        t2.snapshot <= db.seq,
    ensures
        txn_conflicts(db2, t2),
{
    assert(key_written_after(index_of(db2.indices, n), k, t2.snapshot) == (key_written_after(
        index_of(db.indices, n),
        k,
        t2.snapshot,
    ) || (has_write(t1.writes, n, k) && t2.snapshot <= db.seq)));
    assert(key_written_after(index_of(db2.indices, (t2.writes[i2]).iname), t2.writes[i2].key, t2.snapshot));
}

/// A transaction reads its own uncommitted writes, and nobody else does:
/// buffering a write changes only that transaction's view of that index;
/// the committed state every other reader sees is untouched.
pub proof fn lemma_buffered_write_view(
    db: DbV,
    db2: DbV,
    id: int,
    n: Seq<char>,
    k: KeyV,
    val: Option<Seq<u8>>,
)
    requires
        db_wf(db),
        buffered_write_post(db, db2, id, n, k, val),
    ensures
        forall|n2: Seq<char>| #[trigger] committed_map(db2, n2) == committed_map(db, n2),
        read_map(db2, n, Some(id)) == (match val {
            Some(v) => read_map(db, n, Some(id)).insert(k, v),
            None => read_map(db, n, Some(id)).remove(k),
        }),
        forall|n2: Seq<char>|
            n2 != n ==> #[trigger] read_map(db2, n2, Some(id)) == read_map(db, n2, Some(id)),
{
    let p = txn_pos(db.txns, id);
    let t = txn_of(db.txns, id);
    assert(0 <= p < db.txns.len() && db.txns[p].id == id);
    assert(txn_wf(db, t));
    lemma_txn_pos(db2.txns, id, p);
    let t2 = txn_of(db2.txns, id);
    assert(t2.snapshot == t.snapshot);
    lemma_overlay_set_write(
        crate::model::idx_map_at(index_of(db.indices, n), t.snapshot),
        t.writes,
        n,
        k,
        val,
    );
}

/// Round trip: after a successful transaction-less insert of `(k, v)` into
/// index `n`, a point read of `k` against the latest committed state finds
/// exactly the value `v` — `get_single`'s contract then returns the very
/// record that was inserted.
pub proof fn lemma_insert_get_single_roundtrip(db: DbV, db2: DbV, n: Seq<char>, k: KeyV, v: Seq<u8>)
    requires
        single_commit_post(db, db2, n, k, Some(v)),
    ensures
        read_map(db2, n, None).contains_key(k),
        read_map(db2, n, None)[k] == v,
{
}

/// Removal: after a successful transaction-less removal of `k` from index
/// `n`, a point read of `k` against the latest committed state finds
/// nothing — `get_single`'s contract then fails with the absent-entry
/// error.
pub proof fn lemma_remove_get_single_fails(db: DbV, db2: DbV, n: Seq<char>, k: KeyV)
    requires
        single_commit_post(db, db2, n, k, None),
    ensures
        !read_map(db2, n, None).contains_key(k),
{
}

} // verus!

