//! Listing, forgetting and reaping streams.

use git_full_send::protocol::StreamId;
use git_full_send::report::{forget_line, reap_cutoff, reap_lines};
use git_full_send::streams::{
    forget_stream, list_streams, reap_streams, stream_id_from_code_ref, StreamTip,
};

const P: &str = "refs/git-full-send/streams/";

fn names(v: &[&str]) -> Vec<String> {
    v.iter().map(|s| format!("{P}{s}")).collect()
}

fn tip(name: &str, secs: i64) -> StreamTip {
    StreamTip {
        name: format!("{P}{name}"),
        committed_unix_secs: secs,
    }
}

#[test]
fn a_code_ref_names_its_stream() {
    let found = stream_id_from_code_ref("refs/git-full-send/streams/feature/foo/code");
    assert_eq!(found.map(|s| s.as_str().to_string()), Some("feature/foo".to_string()));
    for other in [
        "refs/git-full-send/streams/laptop/extra",
        "refs/git-full-send/streams//code",
        "refs/git-full-send/streams/code",
        "refs/heads/laptop/code",
        "refs/git-full-send/streams/laptop/codes",
        "",
    ] {
        assert!(stream_id_from_code_ref(other).is_none(), "{other}");
    }
}

#[test]
fn streams_are_listed_by_their_code_refs() {
    let all = names(&["a/code", "a/extra", "b/c/code", "odd"]);
    let listed: Vec<String> = list_streams(&all)
        .iter()
        .map(|s| s.as_str().to_string())
        .collect();
    assert_eq!(listed, ["a", "b/c"]);
    assert!(list_streams(&Vec::new()).is_empty());
}

#[test]
fn forgetting_deletes_the_refs_of_one_stream() {
    let all = names(&["a/code", "a/extra", "a-2/code", "b/code"]);
    let forgotten = forget_stream(&all, &StreamId::new("a").unwrap());
    assert_eq!(forgotten.deleted, names(&["a/code", "a/extra"]));
    assert_eq!(forgotten.kept, names(&["a-2/code", "b/code"]));
    // A second time there is nothing to delete.
    let again = forget_stream(&forgotten.kept, &StreamId::new("a").unwrap());
    assert!(again.deleted.is_empty());
    assert_eq!(again.kept, forgotten.kept);
    assert!(!list_streams(&forgotten.kept).iter().any(|s| s.as_str() == "a"));
}

#[test]
fn a_stream_below_another_goes_with_it() {
    let all = names(&["a/code", "a/b/code"]);
    let forgotten = forget_stream(&all, &StreamId::new("a").unwrap());
    assert_eq!(forgotten.deleted.len(), 2);
}

#[test]
fn reaping_forgets_what_is_strictly_older() {
    let all = names(&["new/code", "old/code", "old/extra", "same/code"]);
    let tips = vec![tip("new/code", 101), tip("old/code", 99), tip("same/code", 100)];
    let reap = reap_streams(&all, &tips, 100, false);
    assert_eq!(reap.outcome.scanned, 3);
    assert!(!reap.outcome.dry_run);
    assert_eq!(reap.outcome.reaped.len(), 1);
    let old = &reap.outcome.reaped[0];
    assert_eq!(old.stream.as_str(), "old");
    assert_eq!(old.committed_unix_secs, 99);
    assert_eq!(old.refs_removed, 2);
    assert_eq!(reap.deletions, [names(&["old/code", "old/extra"])]);
    assert_eq!(reap.kept, names(&["new/code", "same/code"]));
}

#[test]
fn a_dry_run_only_counts() {
    let all = names(&["old/code", "old/extra"]);
    let tips = vec![tip("old/code", 1)];
    let reap = reap_streams(&all, &tips, 100, true);
    assert_eq!(reap.outcome.reaped[0].refs_removed, 2);
    assert!(reap.outcome.dry_run);
    assert!(reap.deletions.is_empty());
    assert_eq!(reap.kept, all);
}

#[test]
fn refs_are_deleted_once_where_streams_are_nested() {
    let all = names(&["a/b/code", "a/code"]);
    let tips = vec![tip("a/code", 1), tip("a/b/code", 2), tip("not-a-code-ref", 3)];
    let reap = reap_streams(&all, &tips, 100, false);
    assert_eq!(reap.outcome.scanned, 2);
    assert_eq!(reap.outcome.reaped[0].refs_removed, 2);
    assert_eq!(reap.outcome.reaped[1].refs_removed, 0);
    let dry = reap_streams(&all, &tips, 100, true);
    assert_eq!(dry.outcome.reaped[1].refs_removed, 1);
}

const DAY: i64 = 86_400;

#[test]
fn the_outcome_of_reaping_is_printed() {
    let all = names(&["old/code", "old/extra", "new/code"]);
    let tips = vec![tip("old/code", 0), tip("new/code", 40 * DAY)];
    let real = reap_streams(&all, &tips, 10 * DAY, false);
    assert_eq!(
        reap_lines(&real.outcome, 30, 40 * DAY + 5),
        [
            "reaped `old` (last synced 40 day(s) ago, 2 ref(s) removed)",
            "reaped 1 of 2 stream(s)",
        ]
    );
    let dry = reap_streams(&all, &tips, 10 * DAY, true);
    assert_eq!(
        reap_lines(&dry.outcome, 30, 40 * DAY),
        [
            "would reap `old` (last synced 40 day(s) ago, 2 ref(s))",
            "1 of 2 stream(s) would be reaped (re-run without --dry-run to delete)",
        ]
    );
    let none = reap_streams(&all, &tips, 0, false);
    assert_eq!(
        reap_lines(&none.outcome, 30, 40 * DAY),
        ["no streams older than 30 day(s); nothing to reap (2 scanned)"]
    );
    // A time to come counts as now.
    assert_eq!(
        reap_lines(&real.outcome, 30, -5)[0],
        "reaped `old` (last synced 0 day(s) ago, 2 ref(s) removed)"
    );
}

#[test]
fn a_cutoff_is_days_before_now() {
    assert_eq!(reap_cutoff(40 * DAY, 30), Some(10 * DAY));
    assert_eq!(reap_cutoff(5, 0), Some(5));
    assert_eq!(reap_cutoff(0, u64::MAX), None);
    assert_eq!(reap_cutoff(i64::MIN, 1), None);
}

#[test]
fn forgetting_is_printed() {
    assert_eq!(
        forget_line("a/b", 0),
        "no refs for stream `a/b`; nothing to forget"
    );
    assert_eq!(
        forget_line("a/b", 3),
        "forgot stream `a/b` (3 ref(s) removed)"
    );
}
