//! History records and sessions, with their mathematical views.
use vstd::prelude::*;
use crate::time::Stamp;

verus! {

/// One command occurrence, with the time it was run where that is known.
#[derive(Clone, Debug)]
pub struct HistoryEntry {
    pub timestamp: Option<Stamp>,
    pub command: String,
    pub session_id: Option<u64>,
}

/// The view of a `HistoryEntry`.
pub struct Record {
    pub timestamp: Option<Stamp>,
    pub command: Seq<char>,
    pub session_id: Option<u64>,
}

impl View for HistoryEntry {
    type V = Record;

    open spec fn view(&self) -> Record {
        Record { timestamp: self.timestamp, command: self.command@, session_id: self.session_id }
    }
}

/// The views of a sequence of entries.
pub open spec fn records(es: Seq<HistoryEntry>) -> Seq<Record> {
    es.map_values(|e: HistoryEntry| e@)
}

/// The views of a sequence of entry references.
pub open spec fn ref_records(es: Seq<&HistoryEntry>) -> Seq<Record> {
    es.map_values(|e: &HistoryEntry| e@)
}

/// Every record has a non-empty command and belongs to no session yet.
pub open spec fn fresh(rs: Seq<Record>) -> bool {
    forall|i: int| 0 <= i < rs.len() ==> (#[trigger] rs[i]).command.len() > 0 && rs[i].session_id is None
}

/// The texts of a sequence of lines.
pub open spec fn texts(ls: Seq<String>) -> Seq<Seq<char>> {
    ls.map_values(|l: String| l@)
}

impl HistoryEntry {
    /// An entry that no segmentation has yet placed in a session.
    pub fn new(command: String, timestamp: Option<Stamp>) -> (r: HistoryEntry)
        ensures
            r@ == (Record { timestamp, command: command@, session_id: None }),
    {
        HistoryEntry { timestamp, command, session_id: None }
    }

    /// A copy of this entry.
    pub fn copy(&self) -> (r: HistoryEntry)
        ensures
            r@ == self@,
    {
        HistoryEntry {
            timestamp: self.timestamp,
            command: self.command.clone(),
            session_id: self.session_id,
        }
    }
}

/// A run of records that no gap longer than the threshold divides. `start`
/// and `end` are the times of its first and last timed members, `None` where
/// it has none.
#[derive(Clone, Debug)]
pub struct Session {
    pub id: u64,
    pub start: Option<Stamp>,
    pub end: Option<Stamp>,
    pub commands: Vec<HistoryEntry>,
}

} // verus!
