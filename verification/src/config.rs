//! The durable wrapper around the store: it is built from the snapshot
//! bytes read at startup and hands back the full snapshot to write after
//! every mutation. File handling itself stays with the caller.

use crate::codec::{decode_snapshot, encode_snapshot, encode_snapshot_spec, load_spec};
use crate::data::{find_log, frontier_spec, next_index, CommitLog, Data, LogError, LogModel};
use vstd::prelude::*;

verus! {

pub struct ConfigFile {
    data: Data,
}

impl View for ConfigFile {
    type V = Seq<LogModel>;

    closed spec fn view(&self) -> Seq<LogModel> {
        self.data@
    }
}

impl ConfigFile {
    /// Builds the store from the snapshot bytes found on disk; an absent,
    /// empty or malformed snapshot silently yields the empty store.
    pub fn new(snapshot: &[u8]) -> (c: ConfigFile)
        ensures
            c@ == load_spec(snapshot@),
    {
        ConfigFile { data: decode_snapshot(snapshot) }
    }

    /// Serializes the full current store; the caller overwrites the
    /// snapshot file with exactly these bytes.
    pub fn save(&self) -> (bytes: Vec<u8>)
        ensures
            bytes@ == encode_snapshot_spec(self@),
    {
        encode_snapshot(&self.data)
    }

    pub fn add_log(&mut self, log: CommitLog)
        ensures
            final(self)@ == old(self)@.push(log@),
    {
        self.data.add(log);
    }

    /// The identifier of the most advanced commit that is safe to publish
    /// now, if any record is due.
    pub fn get_commit(&self, now: i64) -> (r: Option<String>)
        ensures
            match r {
                Some(id) => (frontier_spec(self@, now as int) matches Some(l) && l.commit_id
                    == id@),
                None => frontier_spec(self@, now as int) is None,
            },
    {
        match self.data.frontier(now) {
            Some(l) => Some(l.commit_id),
            None => None,
        }
    }

    /// The frontier record itself.
    pub fn get_frontier(&self, now: i64) -> (r: Option<CommitLog>)
        ensures
            match r {
                Some(l) => frontier_spec(self@, now as int) == Some(l@),
                None => frontier_spec(self@, now as int) is None,
            },
    {
        self.data.frontier(now)
    }

    pub fn has_logs(&self) -> (b: bool)
        ensures
            b == (self@.len() > 0),
    {
        self.data.has_logs()
    }

    /// Removes the named record and every record before it; see
    /// [`Data::clear_logs`].
    pub fn clear_logs(&mut self, commit_id: &str) -> (r: Result<(), LogError>)
        ensures
            match find_log(old(self)@, commit_id@) {
                Some(i) => r is Ok && final(self)@ == old(self)@.subrange(
                    i + 1,
                    old(self)@.len() as int,
                ),
                None => r matches Err(LogError::NotFound) && final(self)@ == old(self)@,
            },
    {
        self.data.clear_logs(commit_id)
    }

    /// The earliest-scheduled pending record, for diagnostics.
    pub fn next_log(&self) -> (r: Option<CommitLog>)
        ensures
            self@.len() == 0 ==> r is None,
            self@.len() > 0 ==> (r matches Some(l) && l@ == self@[next_index(self@)]),
    {
        self.data.next_log()
    }

    /// Read access to the pending records, for diagnostics.
    pub fn store(&self) -> (d: &Data)
        ensures
            d@ == self@,
    {
        &self.data
    }
}

} // verus!
