//! The pending-release log: records of locally created commits that have not
//! yet been published, in insertion (= ancestry) order.

use vstd::prelude::*;

verus! {

/// Failure of a store mutation: the named commit is not in the store.
pub enum LogError {
    NotFound,
}

/// The push frontier: the last record (in insertion order) whose release
/// time has passed, i.e. the most advanced commit that is safe to publish.
pub open spec fn frontier_spec(logs: Seq<LogModel>, now: int) -> Option<LogModel>
    decreases logs.len(),
{
    if logs.len() == 0 {
        None
    } else if logs.last().release_at <= now {
        Some(logs.last())
    } else {
        frontier_spec(logs.drop_last(), now)
    }
}

/// The first position holding a record with the given commit id.
pub open spec fn find_log(logs: Seq<LogModel>, id: Seq<char>) -> Option<int>
    decreases logs.len(),
{
    if logs.len() == 0 {
        None
    } else if logs[0].commit_id == id {
        Some(0int)
    } else {
        match find_log(logs.drop_first(), id) {
            Some(i) => Some(i + 1),
            None => None,
        }
    }
}

/// The position of the earliest-scheduled record, ties going to the
/// earlier insertion.
pub open spec fn next_index(logs: Seq<LogModel>) -> int
    recommends
        logs.len() > 0,
    decreases logs.len(),
{
    if logs.len() <= 1 {
        0
    } else {
        let rest = logs.drop_first();
        let r = next_index(rest);
        if logs[0].release_at <= rest[r].release_at {
            0
        } else {
            r + 1
        }
    }
}

pub proof fn lemma_find_log(logs: Seq<LogModel>, id: Seq<char>)
    ensures
        match find_log(logs, id) {
            Some(i) => 0 <= i < logs.len() && logs[i].commit_id == id && (forall|j: int|
                0 <= j < i ==> logs[j].commit_id != id),
            None => forall|j: int| 0 <= j < logs.len() ==> logs[j].commit_id != id,
        },
    decreases logs.len(),
{
    if logs.len() > 0 && logs[0].commit_id != id {
        let rest = logs.drop_first();
        lemma_find_log(rest, id);
        match find_log(rest, id) {
            Some(i) => {
                assert(logs[i + 1] == rest[i]);
                assert forall|j: int| 0 <= j < i + 1 implies logs[j].commit_id != id by {
                    if j > 0 {
                        assert(logs[j] == rest[j - 1]);
                    }
                }
            },
            None => {
                assert forall|j: int| 0 <= j < logs.len() implies logs[j].commit_id != id by {
                    if j > 0 {
                        assert(logs[j] == rest[j - 1]);
                    }
                }
            },
        }
    }
}

/// Frontier monotonicity: in a store whose release times are non-decreasing
/// in insertion order, the frontier is the last record whose release time
/// has passed, and there is none exactly when no record is due — in
/// particular whenever the first record is not yet due.
pub proof fn lemma_frontier_monotonic(logs: Seq<LogModel>, now: int)
    requires
        forall|i: int, j: int|
            0 <= i <= j < logs.len() ==> #[trigger] logs[i].release_at <= #[trigger] logs[j].release_at,
    ensures
        (forall|i: int| 0 <= i < logs.len() ==> #[trigger] logs[i].release_at > now)
            ==> frontier_spec(logs, now) is None,
        logs.len() > 0 && logs[0].release_at > now ==> frontier_spec(logs, now) is None,
        forall|i: int|
            0 <= i < logs.len() && #[trigger] logs[i].release_at <= now && (i + 1 == logs.len()
                || logs[i + 1].release_at > now) ==> frontier_spec(logs, now) == Some(logs[i]),
    decreases logs.len(),
{
    if logs.len() == 0 {
    } else if logs.last().release_at <= now {
        assert forall|i: int|
            0 <= i < logs.len() && logs[i].release_at <= now && (i + 1 == logs.len() || logs[i
                + 1].release_at > now) implies frontier_spec(logs, now) == Some(logs[i]) by {
            if i + 1 < logs.len() {
                assert(logs[i + 1].release_at <= logs[logs.len() - 1].release_at);
            }
        }
        assert(logs[0].release_at <= logs.last().release_at);
    } else {
        let prefix = logs.drop_last();
        assert(forall|i: int| 0 <= i < prefix.len() ==> prefix[i] == logs[i]);
        lemma_frontier_monotonic(prefix, now);
        assert forall|i: int|
            0 <= i < logs.len() && logs[i].release_at <= now && (i + 1 == logs.len() || logs[i
                + 1].release_at > now) implies frontier_spec(logs, now) == Some(logs[i]) by {
            assert(i < logs.len() - 1);
            assert(prefix[i].release_at <= now);
            assert(i + 1 == prefix.len() || prefix[i + 1].release_at > now);
        }
    }
}

/// Clearing up to a commit id is idempotent: where ids identify at most one
/// record, as content-addressed ids do, a successful clear leaves a store
/// in which the same id is no longer found, so a second clear reports "not
/// found" and changes nothing.
pub proof fn lemma_clear_up_to_idempotent(logs: Seq<LogModel>, id: Seq<char>)
    requires
        forall|i: int, j: int|
            0 <= i < j < logs.len() && #[trigger] logs[i].commit_id == id ==> #[trigger] logs[j].commit_id
                != id,
    ensures
        match find_log(logs, id) {
            Some(i) => find_log(logs.subrange(i + 1, logs.len() as int), id) is None,
            None => true,
        },
{
    lemma_find_log(logs, id);
    match find_log(logs, id) {
        Some(i) => {
            let rest = logs.subrange(i + 1, logs.len() as int);
            lemma_find_log(rest, id);
            match find_log(rest, id) {
                Some(k) => {
                    assert(rest[k] == logs[i + 1 + k]);
                    assert(false);
                },
                None => {},
            }
        },
        None => {},
    }
}

/// The frontier is the record at the last due position: if the record at
/// `i` is due and everything after it is not, the frontier is that record.
proof fn lemma_frontier_at(logs: Seq<LogModel>, now: int, i: int)
    requires
        0 <= i < logs.len(),
        logs[i].release_at <= now,
        forall|j: int| i < j < logs.len() ==> #[trigger] logs[j].release_at > now,
    ensures
        frontier_spec(logs, now) == Some(logs[i]),
    decreases logs.len(),
{
    if i < logs.len() - 1 {
        let prefix = logs.drop_last();
        assert(forall|k: int| 0 <= k < prefix.len() ==> prefix[k] == logs[k]);
        lemma_frontier_at(prefix, now, i);
    }
}

/// A successful partial push clears exactly the prefix: when position `i`
/// holds the last record due at `now` and no earlier record shares its
/// commit id (content-addressed ids are distinct), the frontier is that
/// record and its id is first found at `i` — so clearing up to that id,
/// which is what follows the remote's acceptance, leaves exactly the
/// records after `i`, in order, by `clear_logs`'s contract.
pub proof fn lemma_partial_push_clears_prefix(logs: Seq<LogModel>, now: int, i: int)
    requires
        0 <= i < logs.len(),
        logs[i].release_at <= now,
        forall|j: int| i < j < logs.len() ==> #[trigger] logs[j].release_at > now,
        forall|j: int| 0 <= j < i ==> #[trigger] logs[j].commit_id != logs[i].commit_id,
    ensures
        frontier_spec(logs, now) == Some(logs[i]),
        find_log(logs, logs[i].commit_id) == Some(i),
{
    lemma_frontier_at(logs, now, i);
    lemma_find_log_at(logs, logs[i].commit_id, i);
}

pub proof fn lemma_next_index(logs: Seq<LogModel>)
    requires
        logs.len() > 0,
    ensures
        0 <= next_index(logs) < logs.len(),
        forall|j: int|
            0 <= j < logs.len() ==> logs[next_index(logs)].release_at <= #[trigger] logs[j].release_at,
        forall|j: int|
            0 <= j < next_index(logs) ==> #[trigger] logs[j].release_at > logs[next_index(
                logs,
            )].release_at,
    decreases logs.len(),
{
    if logs.len() > 1 {
        let rest = logs.drop_first();
        lemma_next_index(rest);
        assert(forall|j: int| 1 <= j < logs.len() ==> logs[j] == rest[j - 1]);
    }
}

/// Mathematical model of one release record.
pub ghost struct LogModel {
    pub commit_id: Seq<char>,
    pub branch: Seq<char>,
    pub release_at: int,
}

/// One pending commit: its identifier, the branch it belongs to, and the
/// UTC timestamp (seconds) after which it may be published. All fields are
/// fixed at creation.
pub struct CommitLog {
    pub commit_id: String,
    pub branch: String,
    pub release_at: i64,
}

impl View for CommitLog {
    type V = LogModel;

    open spec fn view(&self) -> LogModel {
        LogModel {
            commit_id: self.commit_id@,
            branch: self.branch@,
            release_at: self.release_at as int,
        }
    }
}

impl Clone for CommitLog {
    fn clone(&self) -> (r: Self)
        ensures
            r@ == self@,
    {
        CommitLog {
            commit_id: self.commit_id.clone(),
            branch: self.branch.clone(),
            release_at: self.release_at,
        }
    }
}

impl CommitLog {
    pub fn new(commit_id: String, branch: String, release_at: i64) -> (r: CommitLog)
        ensures
            r@ == (LogModel { commit_id: commit_id@, branch: branch@, release_at: release_at as int }),
    {
        CommitLog { commit_id, branch, release_at }
    }
}

/// The ordered store of pending release records.
pub struct Data {
    logs: Vec<CommitLog>,
}

impl View for Data {
    type V = Seq<LogModel>;

    closed spec fn view(&self) -> Seq<LogModel> {
        self.logs@.map_values(|l: CommitLog| l@)
    }
}

impl Data {
    pub fn new() -> (d: Data)
        ensures
            d@ == Seq::<LogModel>::empty(),
    {
        let d = Data { logs: Vec::new() };
        proof {
            assert(d@ =~= Seq::<LogModel>::empty());
        }
        d
    }

    /// Appends a record at the end; insertion order is commit order.
    pub fn add(&mut self, log: CommitLog)
        ensures
            final(self)@ == old(self)@.push(log@),
    {
        let ghost pre = self@;
        self.logs.push(log);
        proof {
            assert(self@ =~= pre.push(self.logs@.last()@));
        }
    }

    pub fn has_logs(&self) -> (b: bool)
        ensures
            b == (self@.len() > 0),
    {
        self.logs.len() > 0
    }

    pub fn len(&self) -> (n: usize)
        ensures
            n == self@.len(),
    {
        self.logs.len()
    }

    pub fn get(&self, i: usize) -> (l: &CommitLog)
        requires
            i < self@.len(),
        ensures
            l@ == self@[i as int],
    {
        &self.logs[i]
    }

    /// Returns the frontier: the last record whose release time has passed.
    pub fn frontier(&self, now: i64) -> (r: Option<CommitLog>)
        ensures
            match r {
                Some(l) => frontier_spec(self@, now as int) == Some(l@),
                None => frontier_spec(self@, now as int) is None,
            },
    {
        let mut i: usize = self.logs.len();
        proof {
            assert(self@.take(i as int) =~= self@);
        }
        while i > 0
            invariant
                i <= self@.len(),
                frontier_spec(self@, now as int) == frontier_spec(
                    self@.take(i as int),
                    now as int,
                ),
            decreases i,
        {
            i = i - 1;
            let log = &self.logs[i];
            if log.release_at <= now {
                proof {
                    assert(self@.take(i + 1).last() == self@[i as int]);
                }
                return Some(log.clone());
            }
            proof {
                assert(self@.take(i + 1).drop_last() =~= self@.take(i as int));
            }
        }
        proof {
            assert(self@.take(0) =~= Seq::<LogModel>::empty());
        }
        None
    }

    /// Removes the record with the given commit id together with every
    /// record inserted before it; later records are kept, in order.
    /// Reports `NotFound`, leaving the store unchanged, if no record has
    /// that commit id.
    pub fn clear_logs(&mut self, commit_id: &str) -> (r: Result<(), LogError>)
        ensures
            match find_log(old(self)@, commit_id@) {
                Some(i) => r is Ok && final(self)@ == old(self)@.subrange(
                    i + 1,
                    old(self)@.len() as int,
                ),
                None => r matches Err(LogError::NotFound) && final(self)@ == old(self)@,
            },
    {
        proof {
            lemma_find_log(self@, commit_id@);
        }
        let n = self.logs.len();
        let mut i: usize = 0;
        while i < n
            invariant
                self@ == old(self)@,
                n == self@.len(),
                i <= n,
                forall|j: int| 0 <= j < i ==> self@[j].commit_id != commit_id@,
            decreases n - i,
        {
            if str_eq(self.logs[i].commit_id.as_str(), commit_id) {
                proof {
                    lemma_find_log_at(self@, commit_id@, i as int);
                }
                let mut kept: Vec<CommitLog> = Vec::new();
                let mut j: usize = i + 1;
                while j < n
                    invariant
                        self@ == old(self)@,
                        n == self@.len(),
                        i + 1 <= j <= n,
                        kept@.len() == j - i - 1,
                        forall|k: int| 0 <= k < kept@.len() ==> #[trigger] kept@[k]@ == self@[i + 1
                            + k],
                    decreases n - j,
                {
                    kept.push(self.logs[j].clone());
                    j = j + 1;
                }
                proof {
                    assert(kept@.map_values(|l: CommitLog| l@) =~= self@.subrange(
                        i + 1,
                        n as int,
                    ));
                }
                self.logs = kept;
                return Ok(());
            }
            i = i + 1;
        }
        Err(LogError::NotFound)
    }

    /// The earliest-scheduled pending record (first of the minima), or
    /// nothing when the store is empty.
    pub fn next_log(&self) -> (r: Option<CommitLog>)
        ensures
            self@.len() == 0 ==> r is None,
            self@.len() > 0 ==> (r matches Some(l) && l@ == self@[next_index(self@)]),
    {
        if self.logs.len() == 0 {
            return None;
        }
        let mut best: usize = 0;
        let mut i: usize = 1;
        while i < self.logs.len()
            invariant
                self@.len() > 0,
                best < i <= self@.len(),
                forall|j: int| 0 <= j < i ==> self@[best as int].release_at <= self@[j].release_at,
                forall|j: int| 0 <= j < best ==> self@[j].release_at > self@[best as int].release_at,
            decreases self@.len() - i,
        {
            if self.logs[i].release_at < self.logs[best].release_at {
                best = i;
            }
            i = i + 1;
        }
        proof {
            lemma_next_index(self@);
        }
        Some(self.logs[best].clone())
    }
}

/// `find_log` returns the first matching position: knowing that position
/// `i` matches while everything before it does not pins the result.
proof fn lemma_find_log_at(logs: Seq<LogModel>, id: Seq<char>, i: int)
    requires
        0 <= i < logs.len(),
        logs[i].commit_id == id,
        forall|j: int| 0 <= j < i ==> logs[j].commit_id != id,
    ensures
        find_log(logs, id) == Some(i),
    decreases logs.len(),
{
    if i > 0 {
        lemma_find_log_at(logs.drop_first(), id, i - 1);
    }
}

/// String equality decided on the UTF-8 bytes; equal byte sequences mean
/// equal character sequences and conversely.
fn str_eq(a: &str, b: &str) -> (r: bool)
    ensures
        r == (a@ == b@),
{
    broadcast use vstd::utf8::encode_utf8_decode_utf8;

    let ab = a.as_bytes();
    let bb = b.as_bytes();
    if ab.len() != bb.len() {
        return false;
    }
    let mut i: usize = 0;
    while i < ab.len()
        invariant
            ab@ == vstd::utf8::encode_utf8(a@),
            bb@ == vstd::utf8::encode_utf8(b@),
            ab@.len() == bb@.len(),
            i <= ab@.len(),
            forall|j: int| 0 <= j < i ==> ab@[j] == bb@[j],
        decreases ab@.len() - i,
    {
        if *vstd::slice::slice_index_get(ab, i) != *vstd::slice::slice_index_get(bb, i) {
            return false;
        }
        i = i + 1;
    }
    proof {
        assert(ab@ =~= bb@);
        assert(vstd::utf8::decode_utf8(vstd::utf8::encode_utf8(a@)) == a@);
        assert(vstd::utf8::decode_utf8(vstd::utf8::encode_utf8(b@)) == b@);
    }
    true
}

} // verus!

