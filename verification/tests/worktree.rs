//! Checking out.

use git_full_send::checkout::{
    Checkout, CheckoutAction, CheckoutEvent, DiffOutput, UpdateWorktreeReport,
};
use git_full_send::protocol::{ProtocolError, StreamId, StreamIdError};
use git_full_send::select::{DirEntry, FileKind};
use git_full_send::server::ServerError;
use git_full_send::trace2::Trace2;
use git_full_send::worktree::{
    code_tree, count_changed_paths, count_changes, count_removed, diff_args, index_state,
    is_tree_unchanged, last_tree_path, lock_error, named_tree, resolve_code_tree,
    resolve_extra_tree, tree_args, worktree_index_path, worktree_lock_path, worktree_state_dir,
    CleanStats, Compare, FileCount, LockAttempt, LockMode, LockStep, PathDelta, UpdateOptions,
    LOCK_POLL_NANOS,
};

const MS: u128 = 1_000_000;

#[test]
fn a_busy_worktree_fails_fast() {
    let mode = LockMode::default();
    assert_eq!(mode, LockMode::FailFast);
    assert_eq!(mode.first(), LockStep::Try);
    assert_eq!(mode.after(LockAttempt::Taken, 0), LockStep::Held);
    assert_eq!(mode.after(LockAttempt::Contended, 0), LockStep::Busy);
    assert_eq!(mode.after(LockAttempt::Failed, 0), LockStep::Broken);
}

#[test]
fn a_wait_polls_until_its_deadline() {
    let mode = LockMode::Wait {
        timeout: Some(250 * MS),
    };
    assert_eq!(mode.first(), LockStep::Try);
    assert_eq!(
        mode.after(LockAttempt::Contended, 0),
        LockStep::Sleep(LOCK_POLL_NANOS)
    );
    assert_eq!(
        mode.after(LockAttempt::Contended, 200 * MS),
        LockStep::Sleep(50 * MS)
    );
    assert_eq!(
        mode.after(LockAttempt::Contended, 250 * MS),
        LockStep::TimedOut
    );
    assert_eq!(mode.after(LockAttempt::Taken, 300 * MS), LockStep::Held);
    let endless = LockMode::Wait { timeout: None };
    assert_eq!(endless.first(), LockStep::Block);
}

#[test]
fn errors_of_the_lock() {
    match lock_error(LockStep::Busy, "/w", "5s", "") {
        Some(e) => assert_eq!(
            e.message(),
            "another update is already in progress for worktree `/w`"
        ),
        None => panic!("busy is an error"),
    }
    match lock_error(LockStep::TimedOut, "/w", "5s", "") {
        Some(e) => assert_eq!(
            e.message(),
            "timed out after 5s waiting for the lock on worktree `/w`"
        ),
        None => panic!("a timeout is an error"),
    }
    match lock_error(LockStep::Broken, "/w", "", "denied") {
        Some(ServerError::Lock(said)) => assert_eq!(said, "denied"),
        _ => panic!("a broken lock is an error"),
    }
    assert!(lock_error(LockStep::Held, "/w", "", "").is_none());
    assert!(lock_error(LockStep::Sleep(1), "/w", "", "").is_none());
}

#[test]
fn options_start_from_the_lock() {
    let wait = LockMode::Wait { timeout: None };
    assert_eq!(
        UpdateOptions::with_lock(wait),
        UpdateOptions {
            lock: wait,
            measure_worktree: false
        }
    );
    assert_eq!(UpdateOptions::from(wait), UpdateOptions::with_lock(wait));
    assert_eq!(UpdateOptions::default().lock, LockMode::FailFast);
    assert!(!UpdateOptions::default().measure_worktree);
}

#[test]
fn trees_are_named_by_rev_parse() {
    assert_eq!(
        tree_args("refs/x"),
        ["rev-parse", "--verify", "--quiet", "refs/x^{tree}"]
    );
    assert_eq!(named_tree(true, "abc\n"), Some("abc".to_string()));
    assert_eq!(named_tree(true, " \n"), None);
    assert_eq!(named_tree(false, "abc\n"), None);
    assert_eq!(resolve_extra_tree(true, b"abc\n"), Some("abc".to_string()));
    assert_eq!(resolve_extra_tree(false, b""), None);
}

#[test]
fn a_stream_that_was_never_synced_has_no_code_tree() {
    let stream = StreamId::new("laptop").unwrap();
    assert!(matches!(code_tree(&stream, true, "abc\n"), Ok(t) if t == "abc"));
    assert!(matches!(resolve_code_tree(&stream, true, b"abc\n"), Ok(t) if t == "abc"));
    match resolve_code_tree(&stream, false, b"") {
        Err(e) => assert_eq!(
            e.message(),
            "no `refs/git-full-send/streams/laptop/code` to check out; nothing has been synced for this stream yet"
        ),
        Ok(_) => panic!("no tree"),
    }
}

#[test]
fn state_is_kept_under_the_git_dir() {
    assert_eq!(
        worktree_state_dir(b"/r/.git", 0x1f),
        b"/r/.git/git-full-send/worktrees/000000000000001f"
    );
    assert_eq!(
        worktree_index_path(b"/r/.git", u64::MAX),
        b"/r/.git/git-full-send/worktrees/ffffffffffffffff/index"
    );
    assert_eq!(
        worktree_lock_path(b"/r/.git", 0),
        b"/r/.git/git-full-send/worktrees/0000000000000000/lock"
    );
    assert_eq!(
        last_tree_path(b"/r/.git/", 0xabc),
        b"/r/.git/git-full-send/worktrees/0000000000000abc/last-tree"
    );
}

#[test]
fn comparisons_are_asked_of_git() {
    assert_eq!(
        diff_args("t", Compare::Index),
        ["diff-index", "--name-status", "--no-renames", "--cached", "t"]
    );
    assert_eq!(
        diff_args("t", Compare::Worktree),
        ["diff-index", "--name-status", "--no-renames", "t"]
    );
}

#[test]
fn letters_read_backwards() {
    // Added to the index is removed by the checkout, and what is deleted from it
    // is written.
    let delta = count_changes("A\tgone\nD\tnew\nM\tchanged\nT\ttype\nU\todd\n\nX\tother\n");
    assert_eq!(
        delta,
        PathDelta {
            to_write: 5,
            to_remove: 1
        }
    );
    assert!(count_changes("").is_empty());
    assert!(PathDelta::default().is_empty());
    assert!(!delta.is_empty());
    assert_eq!(count_changed_paths(false, b"A\tx\n"), None);
    assert_eq!(
        count_changed_paths(true, b"A\t\xff\n"),
        Some(PathDelta {
            to_write: 0,
            to_remove: 1
        })
    );
}

#[test]
fn the_sweep_counts_what_it_removed() {
    assert_eq!(
        count_removed("Removing a\nRemoving b/\nSkipping c\nremoving d\n"),
        CleanStats { removed: 2 }
    );
    assert_eq!(count_removed(""), CleanStats::default());
}

#[test]
fn a_noted_tree_is_recognised() {
    assert!(is_tree_unchanged(Some("abc\n"), "abc"));
    assert!(!is_tree_unchanged(Some("abd"), "abc"));
    assert!(!is_tree_unchanged(None, "abc"));
}

fn trace(text: &str) -> Option<Trace2> {
    Trace2::from_text(text)
}

const READ: &str = "{\"event\":\"data\",\"category\":\"index\",\"key\":\"read/cache_nr\",\"value\":10}\n";
const WROTE: &str = "{\"event\":\"data\",\"category\":\"index\",\"key\":\"write/cache_nr\",\"value\":12}\n";

#[test]
fn the_index_is_warm_where_git_read_one() {
    let unknown = index_state(Some(5), &None);
    assert_eq!(unknown.state, "unknown");
    assert_eq!(unknown.bytes, Some(5));
    assert_eq!(unknown.entries, None);
    let warm = index_state(Some(5), &trace(READ));
    assert_eq!((warm.state, warm.entries), ("warm", Some(10)));
    let cold = index_state(None, &trace(WROTE));
    assert_eq!((cold.state, cold.entries), ("cold", Some(12)));
    let both = index_state(None, &trace(&format!("{READ}{WROTE}")));
    assert_eq!((both.state, both.entries), ("warm", Some(12)));
}

fn entry(name: &str, kind: FileKind) -> DirEntry {
    DirEntry {
        name: name.as_bytes().to_vec(),
        kind,
    }
}

#[test]
fn files_are_counted_but_for_git_directories() {
    let mut count = FileCount::new(b"/w");
    let mut seen = Vec::new();
    while let Some(dir) = count.next() {
        let entries = match dir.as_slice() {
            b"/w" => vec![
                entry("a", FileKind::File),
                entry(".git", FileKind::Dir),
                entry("sub", FileKind::Dir),
                entry("link", FileKind::Symlink),
            ],
            b"/w/sub" => vec![
                entry("b", FileKind::File),
                entry("fifo", FileKind::Other),
                entry("empty", FileKind::Dir),
                entry(".git", FileKind::File),
            ],
            _ => Vec::new(),
        };
        seen.push(dir);
        assert_eq!(count.finish(), None);
        count.visit(&entries);
    }
    assert_eq!(count.finish(), Some(4));
    assert_eq!(seen, [b"/w".to_vec(), b"/w/sub".to_vec(), b"/w/sub/empty".to_vec()]);
}

fn ran(succeeded: bool, printed: &str, stderr: &str, said: Option<Trace2>) -> CheckoutEvent {
    CheckoutEvent::Ran {
        succeeded,
        printed: printed.as_bytes().to_vec(),
        stderr: stderr.as_bytes().to_vec(),
        trace: said,
    }
}

fn diff(text: &str) -> Option<DiffOutput> {
    Some(DiffOutput {
        success: true,
        stdout: text.as_bytes().to_vec(),
    })
}

/// Runs a checkout on scripted answers, and lists what it did.
fn run(
    options: UpdateOptions,
    code: Option<&str>,
    extra: Option<&str>,
    read_tree: bool,
    clean: bool,
) -> (Vec<String>, Result<UpdateWorktreeReport, ServerError>) {
    let stream = StreamId::new("laptop").unwrap();
    let mut checkout = Checkout::new(stream, "/w".to_string(), options);
    let mut log = Vec::new();
    let mut resolved = 0;
    loop {
        let event = match checkout.action() {
            CheckoutAction::ResolveTree { args } => {
                log.push(args.join(" "));
                let tree = if resolved == 0 { code } else { extra };
                resolved += 1;
                CheckoutEvent::Resolved {
                    success: tree.is_some(),
                    stdout: format!("{}\n", tree.unwrap_or("")).into_bytes(),
                }
            }
            CheckoutAction::Combine { code, extra } => {
                log.push(format!("combine {code} {extra}"));
                CheckoutEvent::Combined {
                    tree: format!("{code}+{extra}"),
                }
            }
            CheckoutAction::Prepare => {
                log.push("prepare".to_string());
                CheckoutEvent::Prepared
            }
            CheckoutAction::Lock(_) => {
                log.push("lock".to_string());
                CheckoutEvent::Locked
            }
            CheckoutAction::Measure {
                index_args,
                worktree_args,
            } => {
                log.push(index_args.join(" "));
                if let Some(args) = &worktree_args {
                    log.push(args.join(" "));
                }
                CheckoutEvent::Measured {
                    index_bytes: Some(77),
                    last_tree: Some("c0de\n".to_string()),
                    vs_index: diff("D\ta\n"),
                    vs_worktree: diff("A\tb\nA\tc\n"),
                    files: Some(9),
                }
            }
            CheckoutAction::Run { step, args } => {
                log.push(args.join(" "));
                if step == "read-tree" {
                    ran(read_tree, "", " no luck \n", trace(READ))
                } else {
                    ran(clean, "Removing x\n", "denied\n", None)
                }
            }
            CheckoutAction::Remember { tree } => {
                log.push(format!("remember {tree}"));
                CheckoutEvent::Remembered
            }
            CheckoutAction::Finish | CheckoutAction::Stop => break,
        };
        checkout = checkout.on_event(event);
    }
    match checkout.outcome() {
        Some(outcome) => (log, outcome),
        None => panic!("the checkout is over"),
    }
}

#[test]
fn a_checkout_goes_through_its_steps() {
    let (log, outcome) = run(UpdateOptions::default(), Some("c0de"), Some("e"), true, true);
    assert_eq!(
        log,
        [
            "rev-parse --verify --quiet refs/git-full-send/streams/laptop/code^{tree}",
            "rev-parse --verify --quiet refs/git-full-send/streams/laptop/extra^{tree}",
            "combine c0de e",
            "prepare",
            "lock",
            "diff-index --name-status --no-renames --cached c0de+e",
            "read-tree --reset -u c0de+e",
            "clean -d -f",
            "remember c0de+e",
        ]
    );
    let report = match outcome {
        Ok(report) => report,
        Err(e) => panic!("{}", e.message()),
    };
    assert_eq!(report.stream.as_str(), "laptop");
    assert_eq!(report.worktree, "/w");
    assert_eq!(report.tree, "c0de+e");
    assert_eq!(report.index.state, "warm");
    assert_eq!(report.index.bytes, Some(77));
    assert_eq!(report.index.entries, Some(10));
    assert!(!report.changed.tree_unchanged);
    assert_eq!(
        report.changed.vs_index,
        Some(PathDelta {
            to_write: 1,
            to_remove: 0
        })
    );
    // Neither is measured unless it is asked for.
    assert_eq!(report.changed.vs_worktree, None);
    assert_eq!(report.worktree_files, None);
    assert_eq!(report.clean.removed, 1);
}

#[test]
fn without_extra_the_code_tree_is_checked_out() {
    let options = UpdateOptions {
        measure_worktree: true,
        ..UpdateOptions::default()
    };
    let (log, outcome) = run(options, Some("c0de"), None, true, true);
    assert!(!log.iter().any(|l| l.starts_with("combine")));
    assert!(log.contains(&"diff-index --name-status --no-renames c0de".to_string()));
    let report = match outcome {
        Ok(report) => report,
        Err(e) => panic!("{}", e.message()),
    };
    assert_eq!(report.tree, "c0de");
    assert!(report.changed.tree_unchanged);
    assert_eq!(
        report.changed.vs_worktree,
        Some(PathDelta {
            to_write: 0,
            to_remove: 2
        })
    );
    assert_eq!(report.worktree_files, Some(9));
}

#[test]
fn an_unsynced_stream_fails_before_anything_is_touched() {
    let (log, outcome) = run(UpdateOptions::default(), None, None, true, true);
    assert_eq!(log.len(), 1);
    assert!(matches!(outcome, Err(ServerError::MissingCodeRef { .. })));
}

#[test]
fn a_failed_step_ends_the_checkout() {
    let (log, outcome) = run(UpdateOptions::default(), Some("c0de"), None, false, true);
    assert!(!log.contains(&"clean -d -f".to_string()));
    match outcome {
        Err(e) => assert_eq!(
            e.message(),
            "`git read-tree` failed during worktree update: no luck"
        ),
        Ok(_) => panic!("a failed step fails the checkout"),
    }
    let (log, outcome) = run(UpdateOptions::default(), Some("c0de"), None, true, false);
    assert!(!log.iter().any(|l| l.starts_with("remember")));
    match outcome {
        Err(e) => assert_eq!(
            e.message(),
            "`git clean` failed during worktree update: denied"
        ),
        Ok(_) => panic!("a failed step fails the checkout"),
    }
}

/// A checkout that has come to the step that `event` ends, if none fails before.
fn fail_with(event: CheckoutEvent) -> ServerError {
    let stream = StreamId::new("laptop").unwrap();
    let mut checkout = Checkout::new(stream, "/w".to_string(), UpdateOptions::default());
    let ends = |action: &CheckoutAction| match (&event, action) {
        (CheckoutEvent::ExtraUnreadable(_), CheckoutAction::Combine { .. }) => true,
        (CheckoutEvent::NotLocked { .. }, CheckoutAction::Lock(_)) => true,
        (CheckoutEvent::Failed(source), CheckoutAction::ResolveTree { .. }) => source == "resolve",
        (CheckoutEvent::Failed(source), CheckoutAction::Combine { .. }) => source == "combine",
        (CheckoutEvent::Failed(source), CheckoutAction::Prepare) => source == "prepare",
        (CheckoutEvent::Failed(source), CheckoutAction::Run { step, .. }) => source == step,
        _ => false,
    };
    loop {
        let action = checkout.action();
        if ends(&action) {
            return match checkout.on_event(event).outcome() {
                Some(Err(e)) => e,
                _ => panic!("the step failed"),
            };
        }
        let went = match action {
            CheckoutAction::ResolveTree { .. } => CheckoutEvent::Resolved {
                success: true,
                stdout: b"c0de\n".to_vec(),
            },
            CheckoutAction::Combine { .. } => CheckoutEvent::Combined { tree: "t".to_string() },
            CheckoutAction::Prepare => CheckoutEvent::Prepared,
            CheckoutAction::Lock(_) => CheckoutEvent::Locked,
            CheckoutAction::Measure { .. } => CheckoutEvent::Measured {
                index_bytes: None,
                last_tree: None,
                vs_index: None,
                vs_worktree: None,
                files: None,
            },
            CheckoutAction::Run { .. } => ran(true, "", "", None),
            CheckoutAction::Remember { .. } => CheckoutEvent::Remembered,
            CheckoutAction::Finish | CheckoutAction::Stop => panic!("no step ends so"),
        };
        checkout = checkout.on_event(went);
    }
}

fn not_locked(ended: LockStep) -> CheckoutEvent {
    CheckoutEvent::NotLocked {
        ended,
        timeout: "2s".to_string(),
        source: "gone".to_string(),
    }
}

#[test]
fn the_step_that_fails_decides_the_error() {
    let fails = |said: &str| fail_with(CheckoutEvent::Failed(said.to_string()));
    assert!(matches!(
        fails("resolve"),
        ServerError::RunGit { step: "rev-parse", source } if source == "resolve"
    ));
    assert!(matches!(fails("combine"), ServerError::BuildTree(source) if source == "combine"));
    assert!(matches!(
        fail_with(CheckoutEvent::ExtraUnreadable("gone".to_string())),
        ServerError::ResolveExtra(source) if source == "gone"
    ));
    assert!(matches!(fails("prepare"), ServerError::CreateWorktree(source) if source == "prepare"));
    assert!(matches!(
        fails("read-tree"),
        ServerError::RunGit { step: "read-tree", source } if source == "read-tree"
    ));
    assert!(matches!(
        fails("clean"),
        ServerError::RunGit { step: "clean", source } if source == "clean"
    ));
    let open = Checkout::new(
        StreamId::new("x").unwrap(),
        "/w".to_string(),
        UpdateOptions::default(),
    );
    assert!(open.outcome().is_none());
}

#[test]
fn a_lock_that_is_not_taken_fails_the_checkout() {
    assert!(matches!(
        fail_with(not_locked(LockStep::Busy)),
        ServerError::WorktreeBusy { worktree } if worktree == "/w"
    ));
    assert!(matches!(
        fail_with(not_locked(LockStep::TimedOut)),
        ServerError::LockTimeout { worktree, timeout } if worktree == "/w" && timeout == "2s"
    ));
    assert!(matches!(
        fail_with(not_locked(LockStep::Broken)),
        ServerError::Lock(source) if source == "gone"
    ));
}

#[test]
fn messages_of_server_errors() {
    let s = || "why".to_string();
    for (error, text) in [
        (
            ServerError::Protocol(ProtocolError::Protocol(s())),
            "protocol error: why",
        ),
        (ServerError::NotARepo("/x".to_string()), "`/x` is not a Git repository"),
        (
            ServerError::Bind { addr: "1.2.3.4:5".to_string(), source: s() },
            "could not bind to `1.2.3.4:5`",
        ),
        (ServerError::InstallHook(s()), "could not install the receive-pack hook"),
        (ServerError::Io(s()), "I/O error while serving"),
        (ServerError::Spawn(s()), "could not spawn `git receive-pack`"),
        (ServerError::ResolveExtra(s()), "could not resolve the `extra` tree"),
        (ServerError::BuildTree(s()), "could not build the combined worktree tree"),
        (ServerError::StreamId(StreamIdError::Empty), "stream id must not be empty"),
        (ServerError::ListStreams(s()), "could not list streams"),
        (ServerError::ForgetStream(s()), "could not forget stream"),
        (ServerError::Reap(s()), "could not reap streams"),
        (ServerError::CreateWorktree(s()), "could not create the worktree directory"),
        (
            ServerError::RunGit { step: "clean", source: s() },
            "could not run `git clean`",
        ),
        (ServerError::Lock(s()), "could not acquire the worktree lock"),
        (ServerError::Join(s()), "serve task failed: why"),
    ] {
        assert_eq!(error.message(), text);
    }
}

#[test]
fn worktrees_share_no_state() {
    let git_dir = b"/r/.git";
    assert_ne!(worktree_lock_path(git_dir, 1), worktree_lock_path(git_dir, 2));
    assert_ne!(
        worktree_state_dir(git_dir, 0x10),
        worktree_state_dir(git_dir, 0x0100_0000_0000_0000)
    );
    assert_eq!(
        worktree_state_dir(git_dir, u64::MAX),
        b"/r/.git/git-full-send/worktrees/ffffffffffffffff"
    );
}
