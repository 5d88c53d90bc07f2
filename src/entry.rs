//! Indexed fields, rename history, decoded per-field changes and results.

use vstd::prelude::*;
use crate::difference::{copy_bytes, view_diffs, DiffRecord, Difference};

verus! {

/// One tracked field: its index and its bytes.
#[derive(Debug, Clone)]
pub struct IndexedData {
    pub index: u8,
    pub data: Vec<u8>,
}

impl IndexedData {
    pub fn new(index: u8, data: Vec<u8>) -> (r: IndexedData)
        ensures
            r.index == index,
            r.data@ == data@,
    {
        IndexedData { index, data }
    }
}

/// The content of a rename-history entry.
pub struct HistoryModel {
    pub current: Seq<u8>,
    pub last: Seq<u8>,
}

/// The names of a field: the one committed last and the one before it.
#[derive(Debug, Clone)]
pub struct HistoryValue {
    pub current: Vec<u8>,
    pub last: Vec<u8>,
}

impl View for HistoryValue {
    type V = HistoryModel;

    open spec fn view(&self) -> HistoryModel {
        HistoryModel { current: self.current@, last: self.last@ }
    }
}

impl HistoryValue {
    pub fn new(current: Vec<u8>) -> (r: HistoryValue)
        ensures
            r@ == (HistoryModel { current: current@, last: Seq::empty() }),
    {
        HistoryValue { current, last: Vec::new() }
    }

    /// Commits a new name; the current one becomes the last.
    pub fn set(&mut self, current: Vec<u8>)
        ensures
            final(self)@ == (HistoryModel { current: current@, last: old(self)@.current }),
    {
        self.last = copy_bytes(self.current.as_slice());
        self.current = current;
    }
}

/// The content of an `EntryDifference`.
pub struct EntryModel {
    pub remove: bool,
    pub diffs: Seq<DiffRecord>,
    pub rename: Option<Seq<DiffRecord>>,
}

/// The decoded changes of one field: its removal, or the changes of its
/// bytes and, optionally, of its name.
#[derive(Debug)]
pub struct EntryDifference {
    pub remove_entry: bool,
    pub diffs: Vec<Difference>,
    pub map_name_changed: Option<Vec<Difference>>,
}

pub open spec fn view_rename(o: Option<Vec<Difference>>) -> Option<Seq<DiffRecord>> {
    match o {
        Some(v) => Some(view_diffs(v@)),
        None => None,
    }
}

impl View for EntryDifference {
    type V = EntryModel;

    open spec fn view(&self) -> EntryModel {
        EntryModel {
            remove: self.remove_entry,
            diffs: view_diffs(self.diffs@),
            rename: view_rename(self.map_name_changed),
        }
    }
}

impl EntryDifference {
    pub fn new(diffs: Vec<Difference>) -> (r: EntryDifference)
        ensures
            r@ == (EntryModel { remove: false, diffs: view_diffs(diffs@), rename: None }),
    {
        EntryDifference { remove_entry: false, diffs, map_name_changed: None }
    }

    pub fn remove_entry() -> (r: EntryDifference)
        ensures
            r@ == (EntryModel { remove: true, diffs: Seq::empty(), rename: None }),
    {
        let r = EntryDifference { remove_entry: true, diffs: Vec::new(), map_name_changed: None };
        assert(view_diffs(r.diffs@) =~= Seq::empty());
        r
    }
}

/// What `apply_patch` reports of one changed field.
#[derive(Debug, Clone)]
pub struct IndexedDataResult {
    pub index: u8,
    pub data: Vec<u8>,
    pub map_name_changed: Option<Vec<u8>>,
}

impl IndexedDataResult {
    pub fn new(index_data: &IndexedData) -> (r: IndexedDataResult)
        ensures
            r.index == index_data.index,
            r.data@ == index_data.data@,
            r.map_name_changed is None,
    {
        IndexedDataResult {
            index: index_data.index,
            data: copy_bytes(index_data.data.as_slice()),
            map_name_changed: None,
        }
    }
}

} // verus!
