use delayed_release::commit::{Committer, DateParseError, PushPlan};
use delayed_release::config::ConfigFile;
use delayed_release::data::{CommitLog, Data, LogError};

fn log(id: &str, branch: &str, at: i64) -> CommitLog {
    CommitLog::new(id.to_string(), branch.to_string(), at)
}

fn store(entries: &[(&str, i64)]) -> Data {
    let mut d = Data::new();
    for (id, at) in entries {
        d.add(log(id, "main", *at));
    }
    d
}

#[test]
fn frontier_empty_store() {
    let d = store(&[]);
    assert!(d.frontier(100).is_none());
}

#[test]
fn frontier_monotonic_picks_last_due() {
    let d = store(&[("c1", 10), ("c2", 20), ("c3", 30)]);
    assert_eq!(d.frontier(25).unwrap().commit_id, "c2");
    assert_eq!(d.frontier(30).unwrap().commit_id, "c3");
    assert_eq!(d.frontier(1000).unwrap().commit_id, "c3");
    assert_eq!(d.frontier(10).unwrap().commit_id, "c1");
}

#[test]
fn frontier_none_when_first_not_due() {
    let d = store(&[("c1", 10), ("c2", 20)]);
    assert!(d.frontier(9).is_none());
}

#[test]
fn frontier_boundary_is_inclusive() {
    let d = store(&[("c1", 10)]);
    assert_eq!(d.frontier(10).unwrap().commit_id, "c1");
    assert!(d.frontier(9).is_none());
}

#[test]
fn clear_up_to_removes_exact_prefix() {
    let mut d = store(&[("c1", 1), ("c2", 2), ("c3", 3), ("c4", 100), ("c5", 200)]);
    assert!(d.clear_logs("c3").is_ok());
    assert_eq!(d.len(), 2);
    assert_eq!(d.get(0).commit_id, "c4");
    assert_eq!(d.get(1).commit_id, "c5");
}

#[test]
fn clear_up_to_is_idempotent() {
    let mut d = store(&[("c1", 1), ("c2", 2), ("c3", 3)]);
    assert!(d.clear_logs("c2").is_ok());
    assert_eq!(d.len(), 1);
    assert_eq!(d.get(0).commit_id, "c3");
    let second = d.clear_logs("c2");
    assert!(matches!(second, Err(LogError::NotFound)));
    assert_eq!(d.len(), 1);
    assert_eq!(d.get(0).commit_id, "c3");
}

#[test]
fn clear_unknown_id_reports_not_found_and_keeps_store() {
    let mut d = store(&[("c1", 1), ("c2", 2)]);
    assert!(matches!(d.clear_logs("missing"), Err(LogError::NotFound)));
    assert_eq!(d.len(), 2);
    assert_eq!(d.get(0).commit_id, "c1");
    assert_eq!(d.get(1).commit_id, "c2");
}

#[test]
fn next_log_reports_earliest_scheduled() {
    let d = store(&[("c1", 50), ("c2", 10), ("c3", 30)]);
    assert_eq!(d.next_log().unwrap().commit_id, "c2");
}

#[test]
fn next_log_tie_goes_to_earlier_insertion() {
    let d = store(&[("c1", 10), ("c2", 10)]);
    assert_eq!(d.next_log().unwrap().commit_id, "c1");
    assert!(store(&[]).next_log().is_none());
}

fn committer_with(entries: &[(&str, i64)]) -> Committer {
    let mut config = ConfigFile::new(&[]);
    for (id, at) in entries {
        config.add_log(log(id, "main", *at));
    }
    Committer::new(config)
}

#[test]
fn push_plan_none_due_is_no_op() {
    let c = committer_with(&[("c1", 100), ("c2", 200)]);
    assert!(matches!(c.plan_push(50), PushPlan::Nothing));
    assert_eq!(c.config.store().len(), 2);
}

#[test]
fn push_plan_full_only_when_store_empty() {
    let empty = committer_with(&[]);
    assert!(matches!(empty.plan_push(50), PushPlan::Full));
    let pending = committer_with(&[("c1", 100)]);
    assert!(!matches!(pending.plan_push(50), PushPlan::Full));
    let due = committer_with(&[("c1", 10)]);
    assert!(!matches!(due.plan_push(50), PushPlan::Full));
}

#[test]
fn push_plan_partial_on_frontier() {
    let c = committer_with(&[("c1", 1), ("c2", 2), ("c3", 3), ("c4", 100), ("c5", 200)]);
    match c.plan_push(50) {
        PushPlan::Partial(l) => assert_eq!(l.commit_id, "c3"),
        _ => panic!("expected a partial push"),
    }
}

#[test]
fn successful_partial_push_clears_prefix() {
    let mut c = committer_with(&[("c1", 1), ("c2", 2), ("c3", 3), ("c4", 100), ("c5", 200)]);
    let frontier = match c.plan_push(50) {
        PushPlan::Partial(l) => l,
        _ => panic!("expected a partial push"),
    };
    assert!(c.confirm_push(&frontier.commit_id).is_ok());
    let d = c.config.store();
    assert_eq!(d.len(), 2);
    assert_eq!(d.get(0).commit_id, "c4");
    assert_eq!(d.get(1).commit_id, "c5");
}

#[test]
fn get_datetime_defaults_to_now() {
    let c = committer_with(&[]);
    assert_eq!(c.get_datetime(None, 12345), Ok(12345));
}

#[test]
fn get_datetime_parses_absolute_date() {
    let c = committer_with(&[]);
    assert_eq!(c.get_datetime(Some("2018-03-21"), 0), Ok(1521590400));
}

#[test]
fn get_datetime_rejects_nonsense() {
    let c = committer_with(&[]);
    assert_eq!(
        c.get_datetime(Some("certainly not a date @@@"), 0),
        Err(DateParseError::Unparsable)
    );
}

#[test]
fn get_datetime_parses_relative_days() {
    let c = committer_with(&[]);
    assert_eq!(c.get_datetime(Some("tomorrow"), 1000), Ok(1000 + 86400));
    assert_eq!(c.get_datetime(Some("2 days"), 1000), Ok(1000 + 2 * 86400));
    assert_eq!(c.get_datetime(Some("2 days ago"), 1000), Ok(1000 - 2 * 86400));
}

#[test]
fn get_datetime_parses_backward_month_steps() {
    // Six months before 2018-07-01T00:00:00Z is 2018-01-01T00:00:00Z.
    let c = committer_with(&[]);
    assert_eq!(
        c.get_datetime(Some("6 months ago"), 1530403200),
        Ok(1514764800)
    );
}

#[test]
fn get_datetime_reports_parser_failures() {
    // From a January 1970 base the parser's month arithmetic lands on a
    // thirteenth month and it reports a bad date.
    let c = committer_with(&[]);
    assert_eq!(
        c.get_datetime(Some("1 year ago"), 0),
        Err(DateParseError::Unparsable)
    );
}

#[test]
fn get_datetime_rejects_oversized_numerals() {
    // The parser's hour and offset arithmetic is unchecked 32-bit; these
    // must be turned away before they reach it.
    let c = committer_with(&[]);
    assert_eq!(
        c.get_datetime(Some("4294967290pm"), 0),
        Err(DateParseError::Unparsable)
    );
    assert_eq!(
        c.get_datetime(Some("2017-06-30 08:20:30 +4294967295"), 0),
        Err(DateParseError::Unparsable)
    );
    assert_eq!(
        c.get_datetime(Some("2017-06-30 08:20:30 +100000000:00"), 0),
        Err(DateParseError::Unparsable)
    );
}

#[test]
fn get_datetime_rejects_non_ascii() {
    // The parser slices identifiers at fixed byte offsets, which panics on
    // non-ASCII text.
    let c = committer_with(&[]);
    assert_eq!(
        c.get_datetime(Some("2 ñño"), 0),
        Err(DateParseError::Unparsable)
    );
}

#[test]
fn commit_then_immediate_push_then_full_push() {
    let now: i64 = 1000;
    let mut c = committer_with(&[]);
    let release_at = c.get_datetime(None, now).unwrap();
    assert_eq!(release_at, now);
    c.commit("id1".to_string(), "main".to_string(), release_at);
    let frontier = match c.plan_push(now) {
        PushPlan::Partial(l) => l,
        _ => panic!("the fresh record is due at once"),
    };
    assert_eq!(frontier.commit_id, "id1");
    assert_eq!(frontier.branch, "main");
    assert!(c.confirm_push(&frontier.commit_id).is_ok());
    assert!(!c.config.has_logs());
    assert!(matches!(c.plan_push(now), PushPlan::Full));
}
