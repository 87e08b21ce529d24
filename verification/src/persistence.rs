//! Snapshots of the dataset: what is written to disk and read back.

use vstd::prelude::*;
use vstd::string::StringExecFns;
use crate::db::{lists, pairs_view, Db, StoreModel};

verus! {

/// The dataset at one instant: each key with its value, and nothing else.
/// Deadlines and channels are not part of it.
#[derive(Debug, PartialEq, Eq)]
pub struct Snapshot {
    pub entries: Vec<(String, Vec<u8>)>,
}

impl View for Snapshot {
    type V = Seq<(Seq<char>, Seq<u8>)>;

    open spec fn view(&self) -> Seq<(Seq<char>, Seq<u8>)> {
        pairs_view(self.entries@)
    }
}

/// The name of the file that a snapshot is written to before it replaces
/// the file `filename`.
pub fn temp_name(filename: &str) -> (name: String)
    ensures
        name@ == filename@ + ".tmp"@,
{
    filename.to_string().concat(".tmp")
}

/// The snapshot of the store as it is: what a save writes.
pub fn save(db: &Db) -> (s: Snapshot)
    ensures
        lists(s@, db@.entries),
{
    Snapshot { entries: db.pairs() }
}

/// Loads a snapshot into the store: its pairs are inserted in order, with
/// no deadline.
pub fn load(db: &mut Db, snapshot: Snapshot)
    ensures
        final(db)@ == old(db)@.after_load(snapshot@, snapshot@.len()),
        old(db)@.well_formed() ==> final(db)@.well_formed(),
{
    db.bulk_insert(snapshot.entries);
}

/// The periodic look at the store: where the dataset changed since the last
/// snapshot was started, the snapshot to write, and the store is marked as
/// unchanged; else nothing.
pub fn begin_periodic_save(db: &mut Db) -> (due: Option<Snapshot>)
    ensures
        final(db)@ == (StoreModel { dirty: false, ..old(db)@ }),
        old(db)@.dirty <==> due is Some,
        due matches Some(s) ==> lists(s@, old(db)@.entries),
{
    if db.take_dirty() {
        Some(save(db))
    } else {
        None
    }
}

/// The end of a periodic save: after a failure the store is marked as
/// changed again, so that the next look retries.
pub fn finish_periodic_save(db: &mut Db, written: bool)
    ensures
        final(db)@ == (StoreModel { dirty: old(db)@.dirty || !written, ..old(db)@ }),
{
    if !written {
        db.mark_dirty();
    }
}

} // verus!
