//! An embedded, in-process, transactional key-value storage engine.
//!
//! A database keeps named indices (independent key-to-value mappings) and
//! mutates them inside optional transactions with snapshot isolation and
//! optimistic, first-committer-wins conflict detection.
//!
//! - [`keys`]: typed keys, records, the error taxonomy, and the key order;
//! - [`model`]: the mathematical model every contract is stated over —
//!   multi-version histories, the maps an index presents at a sequence
//!   number, write-buffer overlays, and conflict predicates;
//! - [`index`]: the storage of one index, mutated only by appending
//!   versions so that snapshots stay readable;
//! - [`db`]: the database itself — registry, transactions, reads, writes,
//!   range scans, and the commit protocol;
//! - [`laws`]: the engine's guarantees, proved once and for all: atomic
//!   visibility, isolation of disjoint transactions, conflict detection,
//!   and the point-lookup round trips.

pub mod db;
pub mod index;
pub mod keys;
pub mod laws;
pub mod model;

use vstd::prelude::*;

verus! {

pub fn foobar() -> (r: String)
    ensures
        r@ == "foobar"@,
{
    "foobar".to_owned()
}

} // verus!
