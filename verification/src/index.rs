//! The storage of one index: a sorted list of entries, each a key with its
//! full version history.  Mutation only ever appends a version with a fresh
//! commit sequence number, so earlier snapshots stay readable.

use vstd::prelude::*;

use crate::keys::{
    clone_value, key_eq, key_lt, lemma_key_lt_asym, lemma_key_lt_connected, lemma_key_lt_trans,
    same_variant, key_lt_v, Key, KeyV, Value,
};
use crate::model::{
    entries_sorted, entry_for, entry_pos, entry_keys_unique, has_key, idx_map_at, index_wf,
    key_written_after, lemma_entry_pos, lemma_sorted_unique, lemma_val_at_push, val_at,
    versions_wf, EntryV, IndexV, VersionV,
};

verus! {

/// One committed version of a key (`None` marks a removal).
pub struct Version {
    seq: u64,
    val: Option<Value>,
}

impl View for Version {
    type V = VersionV;

    closed spec fn view(&self) -> VersionV {
        VersionV {
            seq: self.seq as int,
            val: match self.val {
                Some(v) => Some(v@),
                None => None,
            },
        }
    }
}

/// A key with its version history, oldest first.
pub struct IndexEntry {
    key: Key,
    versions: Vec<Version>,
}

impl View for IndexEntry {
    type V = EntryV;

    closed spec fn view(&self) -> EntryV {
        EntryV { key: self.key@, versions: self.versions@.map_values(|v: Version| v@) }
    }
}

/// An ordered mapping from keys of one variant to opaque byte values,
/// kept as a multi-version history so that snapshots stay readable.
pub struct SimpleIndex {
    key_type: Key,
    entries: Vec<IndexEntry>,
    is_open: bool,
}

impl View for SimpleIndex {
    type V = IndexV;

    closed spec fn view(&self) -> IndexV {
        IndexV {
            key_type: self.key_type@,
            entries: self.entries@.map_values(|e: IndexEntry| e@),
            is_open: self.is_open,
        }
    }
}

impl SimpleIndex {
    /// An empty index whose entries will all use the variant of `key_type`.
    pub fn new(key_type: Key) -> (r: Self)
        ensures
            r@.key_type == key_type@,
            r@.entries == Seq::<EntryV>::empty(),
            !r@.is_open,
    {
        let r = SimpleIndex { key_type, entries: Vec::new(), is_open: false };
        proof {
            assert(r@.entries =~= Seq::<EntryV>::empty());
        }
        r
    }

    /// Whether a handle to this index is currently open.
    pub fn open_flag(&self) -> (r: bool)
        ensures
            r == self@.is_open,
    {
        self.is_open
    }

    /// Mark a handle to this index open or closed.
    pub fn set_open(&mut self, b: bool)
        ensures
            final(self)@ == (IndexV { is_open: b, ..old(self)@ }),
    {
        self.is_open = b;
    }

    /// An exemplar key of the variant this index is keyed by.
    pub fn key_exemplar(&self) -> (r: &Key)
        ensures
            r@ == self@.key_type,
    {
        &self.key_type
    }

    /// The number of keys that ever had a version here.
    pub fn entry_count(&self) -> (n: usize)
        ensures
            n == self@.entries.len(),
    {
        self.entries.len()
    }

    /// The key of the entry at position `i` (entries are in ascending key
    /// order).
    pub fn key_at(&self, i: usize) -> (k: &Key)
        requires
            i < self@.entries.len(),
        ensures
            k@ == self@.entries[i as int].key,
    {
        &self.entries[i].key
    }

    /// Whether some entry (live or tombstoned) holds `key`.
    pub fn has_entry(&self, key: &Key) -> (r: bool)
        requires
            entries_sorted(self@.entries),
        ensures
            r == has_key(self@.entries, key@),
    {
        match self.find_entry(key) {
            Some(_) => true,
            None => false,
        }
    }

    /// The position of the entry holding `key`, if any.
    fn find_entry(&self, key: &Key) -> (r: Option<usize>)
        requires
            entries_sorted(self@.entries),
        ensures
            match r {
                Some(i) => has_key(self@.entries, key@) && entry_pos(self@.entries, key@)
                    == i as int && i < self@.entries.len(),
                None => !has_key(self@.entries, key@),
            },
    {
        proof {
            lemma_sorted_unique(self@.entries);
        }
        let n = self.entries.len();
        let mut i: usize = 0;
        while i < n
            invariant
                i <= n,
                n == self@.entries.len(),
                entry_keys_unique(self@.entries),
                forall|j: int| 0 <= j < i ==> (#[trigger] self@.entries[j]).key != key@,
            decreases n - i,
        {
            if key_eq(&self.entries[i].key, key) {
                proof {
                    lemma_entry_pos(self@.entries, key@, i as int);
                }
                return Some(i);
            }
            i = i + 1;
        }
        None
    }

    /// The value a reader at sequence number `s` sees for `key`.
    pub fn read_at(&self, key: &Key, s: u64) -> (r: Option<Value>)
        requires
            entries_sorted(self@.entries),
        ensures
            match r {
                Some(v) => idx_map_at(self@, s as int).contains_key(key@) && v@ == idx_map_at(
                    self@,
                    s as int,
                )[key@],
                None => !idx_map_at(self@, s as int).contains_key(key@),
            },
    {
        match self.find_entry(key) {
            None => None,
            Some(i) => {
                let vs = &self.entries[i].versions;
                let ghost vsv = self@.entries[i as int].versions;
                let mut j = vs.len();
                proof {
                    assert(vsv.take(j as int) =~= vsv);
                }
                while j > 0
                    invariant
                        j <= vs.len(),
                        vs@.len() == vsv.len(),
                        forall|m: int| 0 <= m < vsv.len() ==> vsv[m] == vs@[m]@,
                        val_at(vsv, s as int) == val_at(vsv.take(j as int), s as int),
                        has_key(self@.entries, key@),
                        entry_for(self@.entries, key@) == self@.entries[i as int],
                        vsv == self@.entries[i as int].versions,
                    decreases j,
                {
                    if vs[j - 1].seq <= s {
                        proof {
                            assert(vsv.take(j as int).last() == vsv[j - 1]);
                        }
                        let r = match &vs[j - 1].val {
                            Some(v) => Some(clone_value(v)),
                            None => None,
                        };
                        return r;
                    }
                    proof {
                        assert(vsv.take(j as int).drop_last() =~= vsv.take(j - 1));
                    }
                    j = j - 1;
                }
                proof {
                    assert(vsv.take(0).len() == 0);
                }
                None
            },
        }
    }

    /// Whether some commit after `s` wrote or removed `key` here.
    pub fn written_after(&self, key: &Key, s: u64) -> (r: bool)
        requires
            entries_sorted(self@.entries),
        ensures
            r == key_written_after(self@, key@, s as int),
    {
        proof {
            lemma_sorted_unique(self@.entries);
        }
        match self.find_entry(key) {
            None => {
                proof {
                    assert(!key_written_after(self@, key@, s as int));
                }
                false
            },
            Some(i) => {
                let vs = &self.entries[i].versions;
                let ghost vsv = self@.entries[i as int].versions;
                let mut j: usize = 0;
                while j < vs.len()
                    invariant
                        j <= vs.len(),
                        vs@.len() == vsv.len(),
                        forall|m: int| 0 <= m < vsv.len() ==> vsv[m] == vs@[m]@,
                        forall|m: int| 0 <= m < j ==> (#[trigger] vsv[m]).seq <= s,
                        has_key(self@.entries, key@),
                        entry_pos(self@.entries, key@) == i as int,
                        i < self@.entries.len(),
                        vsv == self@.entries[i as int].versions,
                        entry_keys_unique(self@.entries),
                    decreases vs.len() - j,
                {
                    if vs[j].seq > s {
                        proof {
                            assert(self@.entries[i as int].key == key@);
                            assert(self@.entries[i as int].versions[j as int].seq > s as int);
                            assert(key_written_after(self@, key@, s as int));
                        }
                        return true;
                    }
                    j = j + 1;
                }
                proof {
                    assert forall|a: int, b: int|
                        !(0 <= a < self@.entries.len() && (#[trigger] self@.entries[a]).key == key@
                            && 0 <= b < self@.entries[a].versions.len() && (
                        #[trigger] self@.entries[a].versions[b]).seq > s) by {
                        if 0 <= a < self@.entries.len() && self@.entries[a].key == key@ {
                            lemma_entry_pos(self@.entries, key@, a);
                        }
                    }
                }
                false
            },
        }
    }

    /// Record that the commit with sequence number `s` leaves `key` at
    /// `val` (`None`: removed).  All history strictly before `s` is kept.
    pub fn put_version(&mut self, key: &Key, val: Option<Value>, s: u64)
        requires
            index_wf(old(self)@, s as int),
            !key_written_after(old(self)@, key@, s - 1),
            same_variant(key@, old(self)@.key_type),
            s >= 1,
        ensures
            index_wf(final(self)@, s as int),
            final(self)@.key_type == old(self)@.key_type,
            final(self)@.is_open == old(self)@.is_open,
            forall|s2: int|
                0 <= s2 < s ==> idx_map_at(final(self)@, s2) == idx_map_at(old(self)@, s2),
            idx_map_at(final(self)@, s as int) == (match val {
                Some(v) => idx_map_at(old(self)@, s as int).insert(key@, v@),
                None => idx_map_at(old(self)@, s as int).remove(key@),
            }),
            forall|k2: KeyV, s2: int|
                key_written_after(final(self)@, k2, s2) == (key_written_after(old(self)@, k2, s2)
                    || (k2 == key@ && s2 < s)),
    {
        let ghost oldv = self@;
        let ghost kv = key@;
        let ghost newver = VersionV {
            seq: s as int,
            val: match val {
                Some(ref v) => Some(v@),
                None => None,
            },
        };
        proof {
            lemma_sorted_unique(oldv.entries);
        }
        match self.find_entry(key) {
            Some(i) => {
                let ghost p = i as int;
                proof {
                    assert forall|b: int| 0 <= b < oldv.entries[p].versions.len() implies (
                    #[trigger] oldv.entries[p].versions[b]).seq <= s - 1 by {
                        if oldv.entries[p].versions[b].seq > s - 1 {
                            assert(key_written_after(oldv, kv, s - 1));
                        }
                    }
                }
                let v = Version { seq: s, val };
                self.entries[i].versions.push(v);
                proof {
                    assert(self@.entries[p].versions =~= oldv.entries[p].versions.push(newver));
                    assert(self@.entries =~= oldv.entries.update(
                        p,
                        EntryV { key: kv, versions: oldv.entries[p].versions.push(newver) },
                    ));
                    lemma_put_update(oldv, self@, p, newver, s as int);
                }
            },
            None => {
                let p = self.insert_pos(key);
                let mut vs: Vec<Version> = Vec::new();
                vs.push(Version { seq: s, val });
                self.entries.insert(p, IndexEntry { key: key.clone(), versions: vs });
                proof {
                    assert(seq![newver] =~= Seq::<VersionV>::empty().push(newver));
                    assert(self@.entries[p as int].versions =~= seq![newver]);
                    assert(self@.entries =~= oldv.entries.insert(
                        p as int,
                        EntryV { key: kv, versions: seq![newver] },
                    ));
                    lemma_put_insert(oldv, self@, p as int, newver, s as int);
                }
            },
        }
    }

    /// The first position whose key is not below `key`; `key` itself is
    /// absent.
    fn insert_pos(&self, key: &Key) -> (p: usize)
        requires
            entries_sorted(self@.entries),
            !has_key(self@.entries, key@),
            forall|j: int| 0 <= j < self@.entries.len() ==> same_variant(
                (#[trigger] self@.entries[j]).key,
                self@.key_type,
            ),
            same_variant(key@, self@.key_type),
        ensures
            p <= self@.entries.len(),
            forall|j: int| 0 <= j < p ==> key_lt_v((#[trigger] self@.entries[j]).key, key@),
            forall|j: int| p <= j < self@.entries.len() ==> key_lt_v(
                key@,
                (#[trigger] self@.entries[j]).key,
            ),
    {
        let n = self.entries.len();
        let mut i: usize = 0;
        while i < n
            invariant
                i <= n,
                n == self@.entries.len(),
                entries_sorted(self@.entries),
                !has_key(self@.entries, key@),
                forall|j: int| 0 <= j < self@.entries.len() ==> same_variant(
                    (#[trigger] self@.entries[j]).key,
                    self@.key_type,
                ),
                same_variant(key@, self@.key_type),
                forall|j: int| 0 <= j < i ==> key_lt_v((#[trigger] self@.entries[j]).key, key@),
            decreases n - i,
        {
            if !key_lt(&self.entries[i].key, key) {
                proof {
                    let ek = self@.entries[i as int].key;
                    assert(ek != key@);
                    assert(same_variant(key@, ek));
                    lemma_key_lt_connected(key@, ek);
                    assert(key_lt_v(key@, ek));
                    assert forall|j: int| i <= j < self@.entries.len() implies key_lt_v(
                        key@,
                        (#[trigger] self@.entries[j]).key,
                    ) by {
                        if j > i {
                            lemma_key_lt_trans(key@, ek, self@.entries[j].key);
                        }
                    }
                }
                return i;
            }
            i = i + 1;
        }
        n
    }
}

/// Appending one version to the history of an existing key changes only
/// what readers at or above its sequence number see of that key.
proof fn lemma_put_update(ix: IndexV, ix2: IndexV, p: int, v: VersionV, s: int)
    requires
        index_wf(ix, s),
        1 <= s,
        v.seq == s,
        0 <= p < ix.entries.len(),
        forall|b: int| 0 <= b < ix.entries[p].versions.len() ==> (
        #[trigger] ix.entries[p].versions[b]).seq <= s - 1,
        ix2.key_type == ix.key_type,
        ix2.is_open == ix.is_open,
        ix2.entries == ix.entries.update(
            p,
            EntryV { key: ix.entries[p].key, versions: ix.entries[p].versions.push(v) },
        ),
    ensures
        index_wf(ix2, s),
        forall|s2: int| 0 <= s2 < s ==> idx_map_at(ix2, s2) == idx_map_at(ix, s2),
        idx_map_at(ix2, s) == (match v.val {
            Some(vv) => idx_map_at(ix, s).insert(ix.entries[p].key, vv),
            None => idx_map_at(ix, s).remove(ix.entries[p].key),
        }),
        forall|k2: KeyV, s2: int|
            key_written_after(ix2, k2, s2) == (key_written_after(ix, k2, s2) || (k2
                == ix.entries[p].key && s2 < s)),
{
    let k0 = ix.entries[p].key;
    let es = ix.entries;
    let es2 = ix2.entries;
    lemma_sorted_unique(es);
    assert(forall|j: int| 0 <= j < es2.len() ==> (#[trigger] es2[j]).key == es[j].key);
    assert(entries_sorted(es2));
    lemma_sorted_unique(es2);
    assert forall|j: int| 0 <= j < es2.len() implies versions_wf((#[trigger] es2[j]).versions, s) by {
        if j != p {
            assert(versions_wf(es[j].versions, s));
        } else {
            let vs2 = es2[p].versions;
            assert(vs2 =~= es[p].versions.push(v));
            assert forall|a: int, b: int| 0 <= a < b < vs2.len() implies (#[trigger] vs2[a]).seq < (
            #[trigger] vs2[b]).seq by {
                if b < vs2.len() - 1 {
                    assert(es[p].versions[a].seq < es[p].versions[b].seq);
                } else {
                    assert(vs2[a].seq <= s - 1);
                }
            }
        }
    }
    assert(index_wf(ix2, s));
    // Lookup positions agree between the two entry lists.
    assert forall|k: KeyV| has_key(es2, k) == has_key(es, k) by {
        if has_key(es, k) {
            let i = entry_pos(es, k);
            assert(0 <= i < es.len() && es[i].key == k);
            lemma_entry_pos(es2, k, i);
        }
        if has_key(es2, k) {
            let i = entry_pos(es2, k);
            assert(0 <= i < es2.len() && es2[i].key == k);
            lemma_entry_pos(es, k, i);
        }
    }
    assert forall|k: KeyV| has_key(es, k) implies entry_pos(es2, k) == entry_pos(es, k) by {
        let i = entry_pos(es, k);
        assert(0 <= i < es.len() && es[i].key == k);
        lemma_entry_pos(es2, k, i);
    }
    // What each reader sees, per key and snapshot.
    assert forall|k: KeyV, s2: int|
        has_key(es, k) && k != k0 implies val_at(entry_for(es2, k).versions, s2) == val_at(
        entry_for(es, k).versions,
        s2,
    ) by {
        let i = entry_pos(es, k);
        assert(i != p);
        assert(entry_for(es2, k) == es2[i] && es2[i] == es[i]);
    }
    assert(entry_pos(es, k0) == p) by {
        lemma_entry_pos(es, k0, p);
    }
    assert(entry_for(es2, k0).versions =~= es[p].versions.push(v));
    assert forall|s2: int| true implies (val_at(entry_for(es2, k0).versions, s2) == (if s2 >= s {
        v.val
    } else {
        val_at(entry_for(es, k0).versions, s2)
    })) by {
        lemma_val_at_push(es[p].versions, v, s2);
    }
    // Maps below s are untouched.
    assert forall|s2: int| 0 <= s2 < s implies idx_map_at(ix2, s2) == idx_map_at(ix, s2) by {
        assert(idx_map_at(ix2, s2) =~= idx_map_at(ix, s2));
    }
    // The map at s is the old map at s with the one write applied.
    match v.val {
        Some(vv) => {
            assert(idx_map_at(ix2, s) =~= idx_map_at(ix, s).insert(k0, vv));
        },
        None => {
            assert(idx_map_at(ix2, s) =~= idx_map_at(ix, s).remove(k0));
        },
    }
    // Conflict witnesses before and after.
    assert forall|k2: KeyV, s2: int|
        key_written_after(ix2, k2, s2) == (key_written_after(ix, k2, s2) || (k2 == k0 && s2
            < s)) by {
        if key_written_after(ix2, k2, s2) {
            let (a, b): (int, int) = choose|a: int, b: int|
                0 <= a < es2.len() && (#[trigger] es2[a]).key == k2 && 0 <= b
                    < es2[a].versions.len() && (#[trigger] es2[a].versions[b]).seq > s2;
            if a != p {
                assert(es[a] == es2[a]);
                assert(key_written_after(ix, k2, s2));
            } else {
                if b < es[p].versions.len() {
                    assert(es[p].versions[b].seq > s2);
                    assert(key_written_after(ix, k2, s2));
                } else {
                    assert(es2[p].versions[b] == v);
                }
            }
        }
        if key_written_after(ix, k2, s2) {
            let (a, b): (int, int) = choose|a: int, b: int|
                0 <= a < es.len() && (#[trigger] es[a]).key == k2 && 0 <= b < es[a].versions.len()
                    && (#[trigger] es[a].versions[b]).seq > s2;
            assert(es2[a].key == k2);
            assert(es2[a].versions[b].seq > s2);
            assert(key_written_after(ix2, k2, s2));
        }
        if k2 == k0 && s2 < s {
            assert(es2[p].versions.last() == v);
            assert(key_written_after(ix2, k2, s2));
        }
    }
}

/// Inserting a fresh key, with a single version, at its sorted position
/// leaves every other key's history untouched.
proof fn lemma_put_insert(ix: IndexV, ix2: IndexV, p: int, v: VersionV, s: int)
    requires
        index_wf(ix, s),
        1 <= s,
        v.seq == s,
        0 <= p <= ix.entries.len(),
        !has_key(ix.entries, ix2.entries[p].key),
        ix2.key_type == ix.key_type,
        ix2.is_open == ix.is_open,
        same_variant(ix2.entries[p].key, ix.key_type),
        ix2.entries == ix.entries.insert(p, EntryV { key: ix2.entries[p].key, versions: seq![v] }),
        forall|j: int| 0 <= j < p ==> key_lt_v((#[trigger] ix.entries[j]).key, ix2.entries[p].key),
        forall|j: int| p <= j < ix.entries.len() ==> key_lt_v(
            ix2.entries[p].key,
            (#[trigger] ix.entries[j]).key,
        ),
    ensures
        index_wf(ix2, s),
        forall|s2: int| 0 <= s2 < s ==> idx_map_at(ix2, s2) == idx_map_at(ix, s2),
        idx_map_at(ix2, s) == (match v.val {
            Some(vv) => idx_map_at(ix, s).insert(ix2.entries[p].key, vv),
            None => idx_map_at(ix, s).remove(ix2.entries[p].key),
        }),
        forall|k2: KeyV, s2: int|
            key_written_after(ix2, k2, s2) == (key_written_after(ix, k2, s2) || (k2
                == ix2.entries[p].key && s2 < s)),
{
    let k0 = ix2.entries[p].key;
    let es = ix.entries;
    let es2 = ix2.entries;
    lemma_sorted_unique(es);
    assert(forall|j: int| 0 <= j < p ==> (#[trigger] es2[j]) == es[j]);
    assert(forall|j: int| p < j < es2.len() ==> (#[trigger] es2[j]) == es[j - 1]);
    assert forall|a: int, b: int| 0 <= a < b < es2.len() implies key_lt_v(
        (#[trigger] es2[a]).key,
        (#[trigger] es2[b]).key,
    ) by {
        if a == p {
            assert(key_lt_v(k0, es[b - 1].key));
        } else if b == p {
            assert(key_lt_v(es[a].key, k0));
        } else if a < p && b > p {
            assert(key_lt_v(es[a].key, es[b - 1].key)) by {
                if a < b - 1 {
                } else {
                    assert(a == b - 1);
                    assert(key_lt_v(es[a].key, k0) && key_lt_v(k0, es[a].key));
                    lemma_key_lt_asym(es[a].key, k0);
                }
            }
        }
    }
    assert(entries_sorted(es2));
    lemma_sorted_unique(es2);
    assert forall|j: int| 0 <= j < es2.len() implies versions_wf((#[trigger] es2[j]).versions, s)
        && same_variant(es2[j].key, ix2.key_type) by {
        if j == p {
            assert(es2[p].versions =~= seq![v]);
        } else if j < p {
            assert(versions_wf(es[j].versions, s));
        } else {
            assert(versions_wf(es[j - 1].versions, s));
        }
    }
    assert(index_wf(ix2, s));
    // Lookups: the fresh key sits at p, every other key keeps its entry.
    lemma_entry_pos(es2, k0, p);
    assert forall|k: KeyV| k != k0 implies has_key(es2, k) == has_key(es, k) && (has_key(es, k)
        ==> entry_for(es2, k) == entry_for(es, k)) by {
        if has_key(es, k) {
            let i = entry_pos(es, k);
            assert(0 <= i < es.len() && es[i].key == k);
            if i < p {
                lemma_entry_pos(es2, k, i);
            } else {
                assert(es2[i + 1] == es[i]);
                lemma_entry_pos(es2, k, i + 1);
            }
        }
        if has_key(es2, k) {
            let i = entry_pos(es2, k);
            assert(0 <= i < es2.len() && es2[i].key == k);
            assert(i != p);
            if i < p {
                lemma_entry_pos(es, k, i);
            } else {
                lemma_entry_pos(es, k, i - 1);
            }
        }
    }
    let vs0 = entry_for(es2, k0).versions;
    assert(vs0 =~= seq![v]);
    assert(vs0.len() == 1 && vs0.last() == v);
    assert(vs0.drop_last() =~= Seq::<VersionV>::empty());
    assert forall|s2: int| true implies (val_at(vs0, s2) == (if s2 >= s {
        v.val
    } else {
        None::<Seq<u8>>
    })) by {
        if s2 >= s {
            assert(val_at(vs0, s2) == v.val);
        } else {
            assert(val_at(vs0.drop_last(), s2) == None::<Seq<u8>>);
            assert(val_at(vs0, s2) == None::<Seq<u8>>);
        }
    }
    assert forall|s2: int| 0 <= s2 < s implies idx_map_at(ix2, s2) == idx_map_at(ix, s2) by {
        assert(idx_map_at(ix2, s2) =~= idx_map_at(ix, s2));
    }
    match v.val {
        Some(vv) => {
            assert(idx_map_at(ix2, s) =~= idx_map_at(ix, s).insert(k0, vv));
        },
        None => {
            assert(idx_map_at(ix2, s) =~= idx_map_at(ix, s).remove(k0));
        },
    }
    assert forall|k2: KeyV, s2: int|
        key_written_after(ix2, k2, s2) == (key_written_after(ix, k2, s2) || (k2 == k0 && s2
            < s)) by {
        if key_written_after(ix2, k2, s2) {
            let (a, b): (int, int) = choose|a: int, b: int|
                0 <= a < es2.len() && (#[trigger] es2[a]).key == k2 && 0 <= b
                    < es2[a].versions.len() && (#[trigger] es2[a].versions[b]).seq > s2;
            if a == p {
                assert(es2[a].versions[b] == v);
            } else if a < p {
                assert(key_written_after(ix, k2, s2));
            } else {
                assert(es[a - 1] == es2[a]);
                assert(key_written_after(ix, k2, s2));
            }
        }
        if key_written_after(ix, k2, s2) {
            let (a, b): (int, int) = choose|a: int, b: int|
                0 <= a < es.len() && (#[trigger] es[a]).key == k2 && 0 <= b < es[a].versions.len()
                    && (#[trigger] es[a].versions[b]).seq > s2;
            if a < p {
                assert(es2[a] == es[a]);
                assert(key_written_after(ix2, k2, s2));
            } else {
                assert(es2[a + 1] == es[a]);
                assert(key_written_after(ix2, k2, s2));
            }
        }
        if k2 == k0 && s2 < s {
            assert(es2[p].versions[0] == v);
            assert(key_written_after(ix2, k2, s2));
        }
    }
}

} // verus!
