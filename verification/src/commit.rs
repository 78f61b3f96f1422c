//! The scheduler: it resolves the release time of a new commit, records the
//! commit as pending, and decides at push time between a partial push up to
//! the frontier, a full push of the branch head, and doing nothing. The
//! repository calls themselves (creating the commit object, pushing refs)
//! are the caller's; every decision here is over the pending-log store.

use crate::config::ConfigFile;
use crate::data::{find_log, frontier_spec, CommitLog, LogError, LogModel};
use vstd::prelude::*;

verus! {

/// A date expression that the parser could not understand; the commit it
/// was given for is not created and nothing is recorded.
#[derive(Debug, PartialEq, Eq)]
pub enum DateParseError {
    Unparsable,
}

/// What the date-parsing collaborator makes of an expression, relative to a
/// reference time.
pub uninterp spec fn parsed_date_of(expr: Seq<char>, now: i64) -> Option<i64>;

pub open spec fn is_digit_char(c: char) -> bool {
    '0' <= c && c <= '9'
}

/// The characters from `i` up to `j` are all decimal digits.
pub open spec fn digit_run(s: Seq<char>, i: int, j: int) -> bool {
    &&& 0 <= i <= j <= s.len()
    &&& forall|k: int| i <= k < j ==> is_digit_char(#[trigger] s[k])
}

/// The number a run of decimal digits denotes.
pub open spec fn digits_value(s: Seq<char>) -> int
    decreases s.len(),
{
    if s.len() == 0 {
        0
    } else {
        digits_value(s.drop_last()) * 10 + (s.last() as u32 - 48)
    }
}

/// Some run of decimal digits in the expression denotes a number of a
/// million or more. The date parser does unchecked 32-bit arithmetic on
/// such numbers (an am/pm hour gains 12; a timezone offset is multiplied by
/// up to 3660), so they must not reach it.
pub open spec fn has_oversized_numeral(s: Seq<char>) -> bool {
    exists|i: int, j: int| #[trigger] digit_run(s, i, j) && digits_value(s.subrange(i, j)) >= 0x10_0000
}

/// The date expressions handed to the parser. Outside this set the parser
/// can panic: its name tables slice identifiers at fixed byte offsets
/// (out of bounds on non-ASCII text), and its hour and offset arithmetic
/// is unchecked 32-bit (overflows on numerals of a million or more).
pub open spec fn date_expr_safe(s: Seq<char>) -> bool {
    &&& vstd::utf8::is_ascii_chars(s)
    &&& !has_oversized_numeral(s)
}

/// Relies on chrono_english::parse_date_string (fixed Uk dialect, relative
/// to the given reference time) together with chrono's timestamp
/// conversions; the outcome depends on the expression and the reference
/// time alone. The requirement keeps out the expressions on which the
/// parser's unchecked arithmetic or identifier slicing panics (see
/// [`date_expr_safe`]).
#[verifier::external_body]
fn parse_date_expr(expr: &str, now_ts: i64) -> (r: Option<i64>)
    requires
        date_expr_safe(expr@),
    ensures
        r == parsed_date_of(expr@, now_ts),
{
    match chrono::DateTime::<chrono::Utc>::from_timestamp(now_ts, 0) {
        None => None,
        Some(now) => {
            match chrono_english::parse_date_string(expr, now, chrono_english::Dialect::Uk) {
                Ok(d) => Some(d.timestamp()),
                Err(_) => None,
            }
        },
    }
}

proof fn lemma_digits_value_nonneg(s: Seq<char>)
    requires
        digit_run(s, 0, s.len() as int),
    ensures
        digits_value(s) >= 0,
    decreases s.len(),
{
    if s.len() > 0 {
        let t = s.drop_last();
        assert(forall|k: int| 0 <= k < t.len() ==> t[k] == s[k]);
        lemma_digits_value_nonneg(t);
        assert(s.last() as u32 >= 48);
    }
}

/// Dropping the leading digit of a run does not increase its value.
proof fn lemma_digits_value_drop_first(s: Seq<char>)
    requires
        s.len() > 0,
        digit_run(s, 0, s.len() as int),
    ensures
        0 <= digits_value(s.drop_first()) <= digits_value(s),
    decreases s.len(),
{
    let d = s.drop_first();
    if s.len() == 1 {
        assert(d =~= Seq::<char>::empty());
        assert(s.drop_last() =~= Seq::<char>::empty());
        assert(s.last() as u32 >= 48);
    } else {
        let t = s.drop_last();
        assert(forall|k: int| 0 <= k < t.len() ==> t[k] == s[k]);
        lemma_digits_value_drop_first(t);
        assert(d.drop_last() =~= t.drop_first());
        assert(d.last() == s.last());
        assert(s.last() as u32 >= 48);
    }
}

/// A suffix of a digit run denotes no more than the whole run.
proof fn lemma_digits_value_suffix(s: Seq<char>, i: int)
    requires
        0 <= i <= s.len(),
        digit_run(s, 0, s.len() as int),
    ensures
        0 <= digits_value(s.subrange(i, s.len() as int)) <= digits_value(s),
    decreases i,
{
    if i == 0 {
        assert(s.subrange(0, s.len() as int) =~= s);
        lemma_digits_value_nonneg(s);
    } else {
        lemma_digits_value_drop_first(s);
        let d = s.drop_first();
        assert(forall|k: int| 0 <= k < d.len() ==> d[k] == s[k + 1]);
        lemma_digits_value_suffix(d, i - 1);
        assert(d.subrange(i - 1, d.len() as int) =~= s.subrange(i, s.len() as int));
    }
}

/// Whether some decimal numeral in the (ASCII) string reaches a million.
fn scan_oversized_numeral(s: &str) -> (r: bool)
    requires
        vstd::utf8::is_ascii_chars(s@),
    ensures
        r == has_oversized_numeral(s@),
{
    broadcast use vstd::utf8::is_ascii_chars_encode_utf8;

    let b = s.as_bytes();
    let n = b.len();
    let mut pos: usize = 0;
    let mut run_start: usize = 0;
    let mut val: u64 = 0;
    proof {
        assert(s@.subrange(0, 0) =~= Seq::<char>::empty());
    }
    while pos < n
        invariant
            vstd::utf8::is_ascii_chars(s@),
            b@ == vstd::utf8::encode_utf8(s@),
            b@.len() == s@.len(),
            forall|k: int| 0 <= k < s@.len() ==> s@[k] as u8 == b@[k],
            n == b@.len(),
            run_start <= pos <= n,
            digit_run(s@, run_start as int, pos as int),
            run_start > 0 ==> !is_digit_char(s@[run_start - 1]),
            val == digits_value(s@.subrange(run_start as int, pos as int)),
            val < 0x10_0000,
            forall|i: int, j: int|
                0 <= i <= j <= pos && #[trigger] digit_run(s@, i, j) ==> digits_value(
                    s@.subrange(i, j),
                ) < 0x10_0000,
        decreases n - pos,
    {
        let byte = *vstd::slice::slice_index_get(b, pos);
        if 48 <= byte && byte <= 57 {
            proof {
                assert(is_digit_char(s@[pos as int]));
            }
            let newval = val * 10 + ((byte - 48) as u64);
            let ghost w = s@.subrange(run_start as int, pos + 1);
            proof {
                assert(w.drop_last() =~= s@.subrange(run_start as int, pos as int));
                assert(w.last() == s@[pos as int]);
                assert(newval == digits_value(w));
                assert(digit_run(s@, run_start as int, pos + 1));
            }
            if newval >= 0x10_0000 {
                proof {
                    assert(digit_run(s@, run_start as int, pos + 1) && digits_value(
                        s@.subrange(run_start as int, pos + 1),
                    ) >= 0x10_0000);
                }
                return true;
            }
            proof {
                assert(digit_run(w, 0, w.len() as int));
                assert forall|i: int, j: int|
                    0 <= i <= j <= pos + 1 && #[trigger] digit_run(s@, i, j) implies digits_value(
                    s@.subrange(i, j),
                ) < 0x10_0000 by {
                    if j == pos + 1 && i < j {
                        if i < run_start {
                            assert(is_digit_char(s@[run_start - 1]));
                        } else {
                            lemma_digits_value_suffix(w, i - run_start as int);
                            assert(w.subrange(i - run_start as int, w.len() as int) =~= s@.subrange(
                                i,
                                j,
                            ));
                        }
                    } else if j == pos + 1 && i == j {
                        assert(s@.subrange(i, j) =~= Seq::<char>::empty());
                    }
                }
            }
            val = newval;
            pos = pos + 1;
        } else {
            proof {
                assert(!is_digit_char(s@[pos as int]));
                assert(s@.subrange(pos + 1, pos + 1) =~= Seq::<char>::empty());
                assert forall|i: int, j: int|
                    0 <= i <= j <= pos + 1 && #[trigger] digit_run(s@, i, j) implies digits_value(
                    s@.subrange(i, j),
                ) < 0x10_0000 by {
                    if j == pos + 1 && i < j {
                        assert(is_digit_char(s@[pos as int]));
                    } else if j == pos + 1 && i == j {
                        assert(s@.subrange(i, j) =~= Seq::<char>::empty());
                    }
                }
            }
            pos = pos + 1;
            run_start = pos;
            val = 0;
        }
    }
    proof {
        if has_oversized_numeral(s@) {
            let (i, j) = choose|i: int, j: int|
                #[trigger] digit_run(s@, i, j) && digits_value(s@.subrange(i, j)) >= 0x10_0000;
            assert(digits_value(s@.subrange(i, j)) < 0x10_0000);
        }
    }
    false
}

/// Decides [`date_expr_safe`] for a given expression.
pub fn check_date_expr(s: &str) -> (r: bool)
    ensures
        r == date_expr_safe(s@),
{
    if !s.is_ascii() {
        return false;
    }
    !scan_oversized_numeral(s)
}

/// The three-way push decision: publish history up to one pending commit,
/// publish the branch head outright, or touch nothing.
pub enum PushPlan {
    /// A pending record is due: push up to (and including) exactly this
    /// record's commit, so that later-scheduled commits do not leak early.
    Partial(CommitLog),
    /// No record is pending at all: a plain full push of the branch head.
    Full,
    /// Records are pending but none is due yet: no remote operation.
    Nothing,
}

/// The scheduler. It owns the config store for the duration of one command
/// invocation; the repository handle and the remote stay with the caller.
pub struct Committer {
    pub config: ConfigFile,
}

impl View for Committer {
    type V = Seq<LogModel>;

    open spec fn view(&self) -> Seq<LogModel> {
        self.config@
    }
}

impl Committer {
    pub fn new(config: ConfigFile) -> (c: Committer)
        ensures
            c@ == config@,
    {
        Committer { config }
    }

    /// Resolves the release timestamp of a new commit: a supplied date
    /// expression is parsed relative to `now_ts`; an omitted one means the
    /// commit is eligible at once. Expressions outside [`date_expr_safe`]
    /// — which no supported date format needs — are rejected as unparsable
    /// without reaching the parser.
    pub fn get_datetime(&self, expr: Option<&str>, now_ts: i64) -> (r: Result<
        i64,
        DateParseError,
    >)
        ensures
            match expr {
                None => r == Ok::<i64, DateParseError>(now_ts),
                Some(e) => if !date_expr_safe(e@) {
                    r == Err::<i64, DateParseError>(DateParseError::Unparsable)
                } else {
                    match parsed_date_of(e@, now_ts) {
                        Some(t) => r == Ok::<i64, DateParseError>(t),
                        None => r == Err::<i64, DateParseError>(DateParseError::Unparsable),
                    }
                },
            },
    {
        match expr {
            Some(e) => {
                if !check_date_expr(e) {
                    return Err(DateParseError::Unparsable);
                }
                match parse_date_expr(e, now_ts) {
                    Some(t) => Ok(t),
                    None => Err(DateParseError::Unparsable),
                }
            },
            None => Ok(now_ts),
        }
    }

    /// Records a freshly created commit as pending: its identifier, the
    /// branch it was made on, and its resolved release time. No remote
    /// interaction happens at commit time.
    pub fn commit(&mut self, commit_id: String, branch: String, release_at: i64)
        ensures
            final(self)@ == old(self)@.push(
                LogModel { commit_id: commit_id@, branch: branch@, release_at: release_at as int },
            ),
    {
        let log = CommitLog::new(commit_id, branch, release_at);
        self.config.add_log(log);
    }

    /// The push decision at time `now_ts`: a partial push exactly when a
    /// frontier record exists, a full push exactly when the store is
    /// entirely empty, and nothing when records exist but none is due.
    pub fn plan_push(&self, now_ts: i64) -> (r: PushPlan)
        ensures
            match r {
                PushPlan::Partial(log) => frontier_spec(self@, now_ts as int) == Some(log@),
                PushPlan::Full => frontier_spec(self@, now_ts as int) is None && self@.len() == 0,
                PushPlan::Nothing => frontier_spec(self@, now_ts as int) is None && self@.len()
                    > 0,
            },
    {
        match self.config.get_frontier(now_ts) {
            Some(log) => PushPlan::Partial(log),
            None => {
                if !self.config.has_logs() {
                    PushPlan::Full
                } else {
                    PushPlan::Nothing
                }
            },
        }
    }

    /// After the remote accepted a partial push up to `commit_id`: the
    /// published records — that commit and everything before it — leave the
    /// store. On a failed push this is not called and the store is
    /// untouched, so the push stays safely retryable.
    pub fn confirm_push(&mut self, commit_id: &str) -> (r: Result<(), LogError>)
        ensures
            match find_log(old(self)@, commit_id@) {
                Some(i) => r is Ok && final(self)@ == old(self)@.subrange(
                    i + 1,
                    old(self)@.len() as int,
                ),
                None => r matches Err(LogError::NotFound) && final(self)@ == old(self)@,
            },
    {
        self.config.clear_logs(commit_id)
    }
}

} // verus!
