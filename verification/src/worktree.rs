//! Checking a stream out into a worktree: the lock, the trees, the steps of git
//! and what they tell.

use vstd::prelude::*;

use crate::bytes::{copy_bytes, join_path, joined, rows};
use crate::protocol::{code_ref, code_ref_of, StreamId};
use crate::select::{is_dot_git, is_git_name, listed, listing, DirEntry, FileKind, Node};
use crate::server::{ServerError, ServerErrorView};
use crate::text::{
    chars_of, hexadecimal, hexadecimal_limit, is_white, law_trimming_takes_white_space_at_the_ends,
    lemma_hexadecimal, lines, lines_of, lossy_text, push_hex, push_text, same_text, starts_with,
    texts, trim_text, trimmed, utf8_lossy,
};
use crate::trace2::{
    last_value, law_the_last_report_of_a_counter_counts, reports, EventView, Trace2,
};

verus! {

/// How long a checkout that waits for the lock sleeps at a time, in nanoseconds.
pub const LOCK_POLL_NANOS: u128 = 100_000_000;

/// What a checkout does where another one holds the lock of the worktree.
#[derive(Debug, Clone, Copy, PartialEq, Eq, Structural)]
pub enum LockMode {
    /// It fails at once.
    FailFast,
    /// It waits.
    Wait {
        /// How long, in nanoseconds; without it for as long as it takes.
        timeout: Option<u128>,
    },
}

impl Default for LockMode {
    fn default() -> (r: Self)
        ensures
            r == LockMode::FailFast,
    {
        LockMode::FailFast
    }
}

/// How an attempt to take the lock ended.
#[derive(Debug, Clone, Copy, PartialEq, Eq, Structural)]
pub enum LockAttempt {
    /// The lock was taken.
    Taken,
    /// Another process holds it.
    Contended,
    /// The attempt itself failed.
    Failed,
}

/// What is done about the lock.
#[derive(Debug, Clone, Copy, PartialEq, Eq, Structural)]
pub enum LockStep {
    /// An attempt that returns at once.
    Try,
    /// An attempt that waits for the holder.
    Block,
    /// A sleep of so many nanoseconds, then an attempt that returns at once.
    Sleep(u128),
    /// The lock is held.
    Held,
    /// The worktree is busy.
    Busy,
    /// The time is up.
    TimedOut,
    /// The lock cannot be taken.
    Broken,
}

impl LockMode {
    /// What is done first about the lock.
    pub open spec fn start(self) -> LockStep {
        match self {
            LockMode::FailFast => LockStep::Try,
            LockMode::Wait { timeout: None } => LockStep::Block,
            LockMode::Wait { timeout: Some(_) } => LockStep::Try,
        }
    }

    /// What is done first about the lock.
    pub fn first(self) -> (r: LockStep)
        ensures
            r == self.start(),
    {
        match self {
            LockMode::FailFast => LockStep::Try,
            LockMode::Wait { timeout: None } => LockStep::Block,
            LockMode::Wait { timeout: Some(_) } => LockStep::Try,
        }
    }

    /// What is done after an attempt, `elapsed` nanoseconds after the first.
    pub open spec fn next(self, attempt: LockAttempt, elapsed: u128) -> LockStep {
        match attempt {
            LockAttempt::Taken => LockStep::Held,
            LockAttempt::Failed => LockStep::Broken,
            LockAttempt::Contended => match self {
                LockMode::FailFast => LockStep::Busy,
                LockMode::Wait { timeout: None } => LockStep::Block,
                LockMode::Wait { timeout: Some(timeout) } => if elapsed >= timeout {
                    LockStep::TimedOut
                } else if timeout - elapsed < LOCK_POLL_NANOS {
                    LockStep::Sleep((timeout - elapsed) as u128)
                } else {
                    LockStep::Sleep(LOCK_POLL_NANOS)
                },
            },
        }
    }

    /// What is done after an attempt, `elapsed` nanoseconds after the first.
    pub fn after(self, attempt: LockAttempt, elapsed: u128) -> (r: LockStep)
        ensures
            r == self.next(attempt, elapsed),
    {
        match attempt {
            LockAttempt::Taken => LockStep::Held,
            LockAttempt::Failed => LockStep::Broken,
            LockAttempt::Contended => match self {
                LockMode::FailFast => LockStep::Busy,
                LockMode::Wait { timeout: None } => LockStep::Block,
                LockMode::Wait { timeout: Some(timeout) } => {
                    if elapsed >= timeout {
                        LockStep::TimedOut
                    } else if timeout - elapsed < LOCK_POLL_NANOS {
                        LockStep::Sleep(timeout - elapsed)
                    } else {
                        LockStep::Sleep(LOCK_POLL_NANOS)
                    }
                },
            },
        }
    }
}

/// The mode that waits so many nanoseconds.
pub open spec fn waiting_for(timeout: u128) -> LockMode {
    LockMode::Wait { timeout: Some(timeout) }
}

/// A checkout that waits sleeps at most the poll interval at a time, and never
/// beyond its deadline.
pub proof fn law_a_wait_never_outlasts_its_deadline(
    timeout: u128,
    attempt: LockAttempt,
    elapsed: u128,
)
    ensures
        waiting_for(timeout).next(attempt, elapsed) matches LockStep::Sleep(nanos) ==> 0 < nanos
            <= LOCK_POLL_NANOS && elapsed + nanos <= timeout,
        attempt == LockAttempt::Contended && elapsed >= timeout ==> waiting_for(timeout).next(
            attempt,
            elapsed,
        ) == LockStep::TimedOut,
{
}

/// A checkout that is to fail fast never waits.
pub proof fn law_failing_fast_never_waits(attempt: LockAttempt, elapsed: u128)
    ensures
        !(LockMode::FailFast.next(attempt, elapsed) is Sleep),
        LockMode::FailFast.next(attempt, elapsed) != LockStep::Block,
{
}

/// The error that a step about the lock stands for, if it stands for one.
pub open spec fn lock_failure(
    step: LockStep,
    worktree: Seq<char>,
    timeout: Seq<char>,
    source: Seq<char>,
) -> Option<ServerErrorView> {
    match step {
        LockStep::Busy => Some(ServerErrorView::WorktreeBusy { worktree }),
        LockStep::TimedOut => Some(ServerErrorView::LockTimeout { worktree, timeout }),
        LockStep::Broken => Some(ServerErrorView::Lock(source)),
        _ => None,
    }
}

/// The error that a step about the lock stands for, if it stands for one.
/// `timeout` is how the time to wait is shown, and `source` what the attempt said.
pub fn lock_error(step: LockStep, worktree: &str, timeout: &str, source: &str) -> (r: Option<
    ServerError,
>)
    ensures
        match r {
            Some(e) => lock_failure(step, worktree@, timeout@, source@) == Some(e@),
            None => lock_failure(step, worktree@, timeout@, source@) is None,
        },
{
    match step {
        LockStep::Busy => Some(ServerError::WorktreeBusy { worktree: worktree.to_owned() }),
        LockStep::TimedOut => Some(
            ServerError::LockTimeout {
                worktree: worktree.to_owned(),
                timeout: timeout.to_owned(),
            },
        ),
        LockStep::Broken => Some(ServerError::Lock(source.to_owned())),
        _ => None,
    }
}

/// How a worktree is updated.
#[derive(Debug, Clone, Copy, PartialEq, Eq, Structural)]
pub struct UpdateOptions {
    /// What is done where the worktree is locked.
    pub lock: LockMode,
    /// Whether the worktree itself is measured, which takes a walk through it.
    pub measure_worktree: bool,
}

impl UpdateOptions {
    /// Options with this lock mode and nothing measured.
    pub fn with_lock(lock: LockMode) -> (r: Self)
        ensures
            r == (UpdateOptions { lock, measure_worktree: false }),
    {
        UpdateOptions { lock, measure_worktree: false }
    }
}

impl Default for UpdateOptions {
    fn default() -> (r: Self)
        ensures
            r == (UpdateOptions { lock: LockMode::FailFast, measure_worktree: false }),
    {
        UpdateOptions { lock: LockMode::default(), measure_worktree: false }
    }
}

impl From<LockMode> for UpdateOptions {
    fn from(lock: LockMode) -> (r: Self) {
        Self::with_lock(lock)
    }
}

impl vstd::std_specs::convert::FromSpecImpl<LockMode> for UpdateOptions {
    open spec fn obeys_from_spec() -> bool {
        true
    }

    open spec fn from_spec(lock: LockMode) -> Self {
        UpdateOptions { lock, measure_worktree: false }
    }
}

/// The index of a worktree as a checkout found it.
#[derive(Debug, Clone, Copy)]
pub struct IndexState {
    /// `warm` if an index was read, `cold` if none was, and `unknown` if git did
    /// not say.
    pub state: &'static str,
    /// The size of its file before the checkout, if there was one.
    pub bytes: Option<u64>,
    /// How many entries it has after the checkout.
    pub entries: Option<i64>,
}

/// A count of paths that a checkout has to change.
#[derive(Debug, Clone, Copy, PartialEq, Eq, Structural)]
pub struct PathDelta {
    /// Paths that are created or rewritten.
    pub to_write: usize,
    /// Paths that are removed.
    pub to_remove: usize,
}

impl Default for PathDelta {
    fn default() -> (r: Self)
        ensures
            r == (PathDelta { to_write: 0, to_remove: 0 }),
    {
        PathDelta { to_write: 0, to_remove: 0 }
    }
}

impl PathDelta {
    /// Whether nothing differs.
    pub fn is_empty(&self) -> (r: bool)
        ensures
            r == (self.to_write == 0 && self.to_remove == 0),
    {
        self.to_write == 0 && self.to_remove == 0
    }
}

/// How far a worktree was from the tree that is checked out.
#[derive(Debug, Clone, Copy, PartialEq, Eq, Structural)]
pub struct ChangedPaths {
    /// Whether it is the tree that was last checked out there.
    pub tree_unchanged: bool,
    /// What differs from the index.
    pub vs_index: Option<PathDelta>,
    /// What differs from the disk, where that was measured.
    pub vs_worktree: Option<PathDelta>,
}

/// What the sweep behind a checkout removed.
#[derive(Debug, Clone, Copy, PartialEq, Eq, Structural)]
pub struct CleanStats {
    /// How many entries it removed.
    pub removed: usize,
}

impl Default for CleanStats {
    fn default() -> (r: Self)
        ensures
            r.removed == 0,
    {
        CleanStats { removed: 0 }
    }
}

/// The arguments of `git` that name the tree of a ref, behind those that name the
/// repository.
pub fn tree_args(ref_name: &str) -> (r: Vec<String>)
    ensures
        texts(r@) == seq!["rev-parse"@, "--verify"@, "--quiet"@, ref_name@ + "^{tree}"@],
{
    let mut out: Vec<String> = Vec::new();
    push_text(&mut out, "rev-parse");
    push_text(&mut out, "--verify");
    push_text(&mut out, "--quiet");
    let mut name = ref_name.to_owned();
    name.append("^{tree}");
    push_text(&mut out, name.as_str());
    proof {
        assert(texts(out@) =~= seq![
            "rev-parse"@,
            "--verify"@,
            "--quiet"@,
            ref_name@ + "^{tree}"@,
        ]);
    }
    out
}

/// The tree that `rev-parse` named, if it named one.
pub open spec fn tree_named(success: bool, stdout: Seq<char>) -> Option<Seq<char>> {
    if success && trimmed(stdout).len() > 0 {
        Some(trimmed(stdout))
    } else {
        None
    }
}

/// The tree that `rev-parse` named, if it named one.
pub fn named_tree(success: bool, stdout: &str) -> (r: Option<String>)
    ensures
        match r {
            Some(tree) => tree_named(success, stdout@) == Some(tree@),
            None => tree_named(success, stdout@) is None,
        },
{
    let tree = trim_text(stdout);
    if !success || tree.as_str().is_empty() {
        None
    } else {
        Some(tree)
    }
}

/// The tree of a stream's `code` ref, by what `rev-parse` said of it. A stream
/// without one was never synced.
pub fn code_tree(stream: &StreamId, success: bool, stdout: &str) -> (r: Result<
    String,
    ServerError,
>)
    ensures
        match r {
            Ok(tree) => tree_named(success, stdout@) == Some(tree@),
            Err(ServerError::MissingCodeRef { ref_name }) => tree_named(success, stdout@) is None
                && ref_name@ == code_ref_of(stream@),
            Err(_) => false,
        },
{
    match named_tree(success, stdout) {
        Some(tree) => Ok(tree),
        None => Err(ServerError::MissingCodeRef { ref_name: code_ref(stream) }),
    }
}

/// As [`code_tree`], on what `rev-parse` printed as it came.
pub fn resolve_code_tree(stream: &StreamId, success: bool, stdout: &[u8]) -> (r: Result<
    String,
    ServerError,
>)
    ensures
        match r {
            Ok(tree) => tree_named(success, utf8_lossy(stdout@)) == Some(tree@),
            Err(ServerError::MissingCodeRef { ref_name }) => tree_named(
                success,
                utf8_lossy(stdout@),
            ) is None && ref_name@ == code_ref_of(stream@),
            Err(_) => false,
        },
{
    let said = lossy_text(stdout);
    code_tree(stream, success, said.as_str())
}

/// The tree of a stream's `extra` ref, by what `rev-parse` printed. A stream
/// without one carries no force-included files.
pub fn resolve_extra_tree(success: bool, stdout: &[u8]) -> (r: Option<String>)
    ensures
        match r {
            Some(tree) => tree_named(success, utf8_lossy(stdout@)) == Some(tree@),
            None => tree_named(success, utf8_lossy(stdout@)) is None,
        },
{
    let said = lossy_text(stdout);
    named_tree(success, said.as_str())
}

/// The directory of what is kept for a worktree. `key` tells worktrees apart.
pub open spec fn state_dir_of(git_dir: Seq<u8>, key: Seq<u8>) -> Seq<u8> {
    joined(
        joined(
            joined(git_dir, vstd::utf8::encode_utf8("git-full-send"@)),
            vstd::utf8::encode_utf8("worktrees"@),
        ),
        key,
    )
}

/// The directory, under the git directory, of what is kept for the worktree whose
/// path has this hash.
pub fn worktree_state_dir(git_dir: &[u8], hash: u64) -> (r: Vec<u8>)
    ensures
        r@ == state_dir_of(git_dir@, vstd::utf8::encode_utf8(hexadecimal(hash as int, 16))),
{
    let mut key = String::new();
    push_hex(&mut key, hash, 16);
    proof {
        assert(key@ =~= hexadecimal(hash as int, 16));
    }
    let ours = join_path(git_dir, "git-full-send".as_bytes());
    let all = join_path(ours.as_slice(), "worktrees".as_bytes());
    join_path(all.as_slice(), key.as_str().as_bytes())
}

/// The path of a file that is kept for the worktree whose path has this hash.
pub open spec fn state_file_of(git_dir: Seq<u8>, hash: u64, name: Seq<char>) -> Seq<u8> {
    joined(
        state_dir_of(git_dir, vstd::utf8::encode_utf8(hexadecimal(hash as int, 16))),
        vstd::utf8::encode_utf8(name),
    )
}

/// The path of the index that is kept for a worktree.
pub fn worktree_index_path(git_dir: &[u8], hash: u64) -> (r: Vec<u8>)
    ensures
        r@ == state_file_of(git_dir@, hash, "index"@),
{
    let dir = worktree_state_dir(git_dir, hash);
    join_path(dir.as_slice(), "index".as_bytes())
}

/// The path of the lock of a worktree, beside its index.
pub fn worktree_lock_path(git_dir: &[u8], hash: u64) -> (r: Vec<u8>)
    ensures
        r@ == state_file_of(git_dir@, hash, "lock"@),
{
    let dir = worktree_state_dir(git_dir, hash);
    join_path(dir.as_slice(), "lock".as_bytes())
}

/// Where the tree that was last checked out into a worktree is noted.
pub fn last_tree_path(git_dir: &[u8], hash: u64) -> (r: Vec<u8>)
    ensures
        r@ == state_file_of(git_dir@, hash, "last-tree"@),
{
    let dir = worktree_state_dir(git_dir, hash);
    join_path(dir.as_slice(), "last-tree".as_bytes())
}

/// Worktrees whose paths have different hashes have directories of their own, so
/// that they share neither an index nor a lock.
pub proof fn law_worktrees_share_no_state(git_dir: Seq<u8>, a: u64, b: u64)
    requires
        a != b,
    ensures
        state_dir_of(git_dir, vstd::utf8::encode_utf8(hexadecimal(a as int, 16))) != state_dir_of(
            git_dir,
            vstd::utf8::encode_utf8(hexadecimal(b as int, 16)),
        ),
{
    assert(hexadecimal_limit(16) == 0x1_0000_0000_0000_0000) by {
        reveal_with_fuel(hexadecimal_limit, 17);
    }
    lemma_hexadecimal(a as int, b as int, 16);
    lemma_hexadecimal(b as int, a as int, 16);
    let one = hexadecimal(a as int, 16);
    let other = hexadecimal(b as int, 16);
    vstd::utf8::is_ascii_chars_encode_utf8(one);
    vstd::utf8::is_ascii_chars_encode_utf8(other);
    vstd::utf8::encode_utf8_decode_utf8(one);
    vstd::utf8::encode_utf8_decode_utf8(other);
    let x = vstd::utf8::encode_utf8(one);
    let y = vstd::utf8::encode_utf8(other);
    assert(x != y);
    assert(one[0] != '/' && other[0] != '/');
    assert(x[0] != 47 && y[0] != 47);
    let base = joined(
        joined(git_dir, vstd::utf8::encode_utf8("git-full-send"@)),
        vstd::utf8::encode_utf8("worktrees"@),
    );
    if joined(base, x) == joined(base, y) {
        let whole = joined(base, x);
        let from = whole.len() - x.len();
        assert(x =~= whole.subrange(from, whole.len() as int));
        assert(y =~= whole.subrange(from, whole.len() as int));
    }
}

/// What the tree that is checked out is compared with.
#[derive(Debug, Clone, Copy, PartialEq, Eq, Structural)]
pub enum Compare {
    /// The index.
    Index,
    /// The disk.
    Worktree,
}

/// The arguments of `git` that compare a tree.
pub open spec fn diff_args_of(tree: Seq<char>, compare: Compare) -> Seq<Seq<char>> {
    seq!["diff-index"@, "--name-status"@, "--no-renames"@] + match compare {
        Compare::Index => seq!["--cached"@, tree],
        Compare::Worktree => seq![tree],
    }
}

/// The arguments of `git` that compare a tree, behind those that name the
/// repository and the worktree.
pub fn diff_args(tree: &str, compare: Compare) -> (r: Vec<String>)
    ensures
        texts(r@) == diff_args_of(tree@, compare),
{
    let mut out: Vec<String> = Vec::new();
    push_text(&mut out, "diff-index");
    push_text(&mut out, "--name-status");
    push_text(&mut out, "--no-renames");
    match compare {
        Compare::Index => {
            push_text(&mut out, "--cached");
        },
        Compare::Worktree => {},
    }
    push_text(&mut out, tree);
    proof {
        assert(texts(out@) =~= diff_args_of(tree@, compare));
    }
    out
}

/// How many of the lines start with `head`.
pub open spec fn count_with(lines: Seq<Seq<char>>, head: Seq<char>) -> nat
    decreases lines.len(),
{
    if lines.len() == 0 {
        0
    } else {
        count_with(lines.drop_last(), head) + if head.is_prefix_of(lines.last()) {
            1nat
        } else {
            0nat
        }
    }
}

/// How many of the lines are empty.
pub open spec fn count_empty(lines: Seq<Seq<char>>) -> nat
    decreases lines.len(),
{
    if lines.len() == 0 {
        0
    } else {
        count_empty(lines.drop_last()) + if lines.last().len() == 0 {
            1nat
        } else {
            0nat
        }
    }
}

/// What a comparison says of the work of a checkout. Its letters speak of the
/// index or the disk: what it calls added is not in the tree and is removed, and
/// any other path is written.
pub open spec fn is_delta(delta: PathDelta, lines: Seq<Seq<char>>) -> bool {
    &&& delta.to_remove == count_with(lines, seq!['A'])
    &&& delta.to_write + count_with(lines, seq!['A']) + count_empty(lines) == lines.len()
}

/// Counts what a comparison says a checkout has to write and to remove.
pub fn count_changes(stdout: &str) -> (r: PathDelta)
    ensures
        is_delta(r, lines_of(stdout@)),
{
    let chars = chars_of(stdout);
    let all = lines(chars.as_slice());
    let ghost names = texts(all@);
    let mut delta = PathDelta::default();
    let mut i: usize = 0;
    proof {
        assert(names.take(0) =~= Seq::<Seq<char>>::empty());
    }
    while i < all.len()
        invariant
            i <= all@.len(),
            names == texts(all@),
            delta.to_write + delta.to_remove <= i,
            is_delta(delta, names.take(i as int)),
        decreases all@.len() - i,
    {
        let line = chars_of(all[i].as_str());
        proof {
            let next = names.take(i + 1);
            assert(next.drop_last() =~= names.take(i as int));
            assert(next.last() == line@);
            if line@.len() > 0 {
                let head = line@.subrange(0, 1);
                assert(head[0] == line@[0]);
                if line@[0] == 'A' {
                    assert(head =~= seq!['A']);
                }
            }
        }
        if line.len() > 0 {
            if line[0] == 'A' {
                delta = PathDelta { to_remove: delta.to_remove + 1, ..delta };
            } else {
                delta = PathDelta { to_write: delta.to_write + 1, ..delta };
            }
        }
        i += 1;
    }
    proof {
        assert(names.take(names.len() as int) =~= names);
    }
    delta
}

/// What a comparison said, if it succeeded.
pub fn count_changed_paths(success: bool, stdout: &[u8]) -> (r: Option<PathDelta>)
    ensures
        match r {
            Some(delta) => success && is_delta(delta, lines_of(utf8_lossy(stdout@))),
            None => !success,
        },
{
    if !success {
        return None;
    }
    let said = lossy_text(stdout);
    Some(count_changes(said.as_str()))
}

/// Counts the lines in which `clean` says that it removed an entry.
pub fn count_removed(stdout: &str) -> (r: CleanStats)
    ensures
        r.removed == count_with(lines_of(stdout@), "Removing "@),
{
    let chars = chars_of(stdout);
    let all = lines(chars.as_slice());
    let head = chars_of("Removing ");
    let ghost names = texts(all@);
    let mut removed: usize = 0;
    let mut i: usize = 0;
    proof {
        assert(names.take(0) =~= Seq::<Seq<char>>::empty());
    }
    while i < all.len()
        invariant
            i <= all@.len(),
            names == texts(all@),
            head@ == "Removing "@,
            removed <= i,
            removed == count_with(names.take(i as int), "Removing "@),
        decreases all@.len() - i,
    {
        let line = chars_of(all[i].as_str());
        proof {
            let next = names.take(i + 1);
            assert(next.drop_last() =~= names.take(i as int));
            assert(next.last() == line@);
        }
        if starts_with(line.as_slice(), head.as_slice()) {
            removed += 1;
        }
        i += 1;
    }
    proof {
        assert(names.take(names.len() as int) =~= names);
    }
    CleanStats { removed }
}

/// Whether what was noted as last checked out is `tree`.
pub fn is_tree_unchanged(last: Option<&str>, tree: &str) -> (r: bool)
    ensures
        r == (last matches Some(noted) && trimmed(noted@) == tree@),
{
    match last {
        Some(noted) => {
            let noted = trim_text(noted);
            same_text(noted.as_str(), tree)
        },
        None => false,
    }
}

/// What the events that git reported say of the index: its state and how many
/// entries it has now.
pub open spec fn index_says(trace: Option<Seq<EventView>>) -> (Seq<char>, Option<i64>) {
    match trace {
        None => ("unknown"@, None),
        Some(events) => {
            let read = last_value(events, "index"@, "read/cache_nr"@);
            let wrote = last_value(events, "index"@, "write/cache_nr"@);
            (
                if read is Some {
                    "warm"@
                } else {
                    "cold"@
                },
                if wrote is Some {
                    wrote
                } else {
                    read
                },
            )
        },
    }
}

/// The events of a trace, if there is one.
pub open spec fn trace_view(trace: Option<Trace2>) -> Option<Seq<EventView>> {
    match trace {
        Some(t) => Some(t@),
        None => None,
    }
}

/// The index that a checkout ran against. Git counts the entries that it read
/// only where there was an index to read.
pub fn index_state(bytes: Option<u64>, trace: &Option<Trace2>) -> (r: IndexState)
    ensures
        r.bytes == bytes,
        (r.state@, r.entries) == index_says(trace_view(*trace)),
{
    match trace {
        None => IndexState { state: "unknown", bytes, entries: None },
        Some(t) => {
            let read = t.data_i64("index", "read/cache_nr");
            let wrote = t.data_i64("index", "write/cache_nr");
            let state = if read.is_some() {
                "warm"
            } else {
                "cold"
            };
            IndexState {
                state,
                bytes,
                entries: if wrote.is_some() {
                    wrote
                } else {
                    read
                },
            }
        },
    }
}

/// Whether an entry is one to be counted: not a git directory, and no directory.
pub open spec fn is_counted_file(entry: (Seq<u8>, FileKind)) -> bool {
    !is_dot_git(entry.0) && entry.1 != FileKind::Dir
}

/// Whether an entry is a directory to be walked through.
pub open spec fn is_walked_dir(entry: (Seq<u8>, FileKind)) -> bool {
    !is_dot_git(entry.0) && entry.1 == FileKind::Dir
}

/// How many entries of a listing are counted.
pub open spec fn files_listed(entries: Seq<(Seq<u8>, FileKind)>) -> nat
    decreases entries.len(),
{
    if entries.len() == 0 {
        0
    } else {
        files_listed(entries.drop_last()) + if is_counted_file(entries.last()) {
            1nat
        } else {
            0nat
        }
    }
}

/// The directories of a listing of the directory at `base` that are walked
/// through.
pub open spec fn dirs_listed(base: Seq<u8>, entries: Seq<(Seq<u8>, FileKind)>) -> Seq<Seq<u8>>
    decreases entries.len(),
{
    if entries.len() == 0 {
        Seq::empty()
    } else if is_walked_dir(entries.last()) {
        dirs_listed(base, entries.drop_last()).push(joined(base, entries.last().0))
    } else {
        dirs_listed(base, entries.drop_last())
    }
}

/// Counts the files of a worktree: [`FileCount::next`] names a directory, and
/// [`FileCount::visit`] takes what is in it.
pub struct FileCount {
    count: usize,
    pending: Vec<Vec<u8>>,
}

impl FileCount {
    /// How many files were counted.
    pub closed spec fn count(self) -> nat {
        self.count as nat
    }

    /// The directories that are yet to be looked at.
    pub closed spec fn pending(self) -> Seq<Seq<u8>> {
        rows(self.pending@)
    }

    /// A count that begins at `root`.
    pub fn new(root: &[u8]) -> (r: Self)
        ensures
            r.count() == 0,
            r.pending() == seq![root@],
    {
        let mut pending: Vec<Vec<u8>> = Vec::new();
        pending.push(copy_bytes(root));
        proof {
            assert(rows(pending@) =~= seq![root@]);
        }
        FileCount { count: 0, pending }
    }

    /// The directory to look at, unless all were.
    pub fn next(&self) -> (r: Option<Vec<u8>>)
        ensures
            match r {
                Some(dir) => self.pending().len() > 0 && dir@ == self.pending().last(),
                None => self.pending().len() == 0,
            },
    {
        if self.pending.len() == 0 {
            None
        } else {
            Some(copy_bytes(self.pending[self.pending.len() - 1].as_slice()))
        }
    }

    /// Takes what is in the directory that was to be looked at.
    pub fn visit(&mut self, entries: &Vec<DirEntry>)
        requires
            old(self).pending().len() > 0,
            old(self).count() + entries@.len() <= usize::MAX,
        ensures
            final(self).count() == old(self).count() + files_listed(listing(entries@)),
            final(self).pending() == old(self).pending().drop_last() + dirs_listed(
                old(self).pending().last(),
                listing(entries@),
            ),
    {
        let ghost before = self.pending();
        let ghost start = self.count();
        let ghost all = listing(entries@);
        let base = match self.pending.pop() {
            Some(dir) => dir,
            None => Vec::new(),
        };
        proof {
            assert(self.pending() =~= before.drop_last());
            assert(all.take(0) =~= Seq::<(Seq<u8>, FileKind)>::empty());
            assert(self.pending() =~= before.drop_last() + dirs_listed(base@, all.take(0)));
        }
        let mut i: usize = 0;
        while i < entries.len()
            invariant
                i <= entries@.len(),
                all == listing(entries@),
                start + entries@.len() <= usize::MAX,
                self.count() <= start + i,
                self.count() == start + files_listed(all.take(i as int)),
                self.pending() == before.drop_last() + dirs_listed(base@, all.take(i as int)),
            decreases entries@.len() - i,
        {
            let entry = &entries[i];
            proof {
                let next = all.take(i + 1);
                assert(next.drop_last() =~= all.take(i as int));
                assert(next.last() == (entry.name@, entry.kind));
            }
            if !is_git_name(entry.name.as_slice()) {
                if entry.kind == FileKind::Dir {
                    let ghost held = self.pending@;
                    let dir = join_path(base.as_slice(), entry.name.as_slice());
                    self.pending.push(dir);
                    proof {
                        assert(rows(self.pending@) =~= rows(held).push(dir@));
                        assert(self.pending() =~= before.drop_last() + dirs_listed(
                            base@,
                            all.take(i + 1),
                        ));
                    }
                } else {
                    self.count = self.count + 1;
                }
            }
            i += 1;
        }
        proof {
            assert(all.take(all.len() as int) =~= all);
        }
    }

    /// How many files were counted, once all directories were looked at.
    pub fn finish(&self) -> (r: Option<usize>)
        ensures
            match r {
                Some(n) => self.pending().len() == 0 && n == self.count(),
                None => self.pending().len() > 0,
            },
    {
        if self.pending.len() == 0 {
            Some(self.count)
        } else {
            None
        }
    }
}

/// How many files there are in a directory with these entries, at any depth, git
/// directories aside.
pub open spec fn files_below(entries: Seq<(Seq<u8>, Node)>) -> nat
    decreases entries,
{
    if entries.len() == 0 {
        0
    } else {
        let front = entries.drop_last();
        files_below(front) + if is_dot_git(entries.last().0) {
            0nat
        } else {
            match entries.last().1 {
                Node::Dir(inner) => files_below(inner),
                _ => 1nat,
            }
        }
    }
}

/// How many files there are below directories.
pub open spec fn files_in_all(dirs: Seq<Seq<(Seq<u8>, Node)>>) -> nat
    decreases dirs.len(),
{
    if dirs.len() == 0 {
        0
    } else {
        files_in_all(dirs.drop_last()) + files_below(dirs.last())
    }
}

/// What is in the directories of `entries` that are walked through.
pub open spec fn walked(entries: Seq<(Seq<u8>, Node)>) -> Seq<Seq<(Seq<u8>, Node)>>
    decreases entries.len(),
{
    if entries.len() == 0 {
        Seq::empty()
    } else {
        let front = walked(entries.drop_last());
        match entries.last().1 {
            Node::Dir(inner) => if is_dot_git(entries.last().0) {
                front
            } else {
                front.push(inner)
            },
            _ => front,
        }
    }
}

/// Looking at a directory changes nothing about the whole: the files counted and
/// those below what is yet to be looked at make up every file of the worktree.
/// So the count that is left where nothing is pending is that of every file.
pub proof fn law_a_visit_keeps_the_number_of_files(
    dirs: Seq<Seq<(Seq<u8>, Node)>>,
    entries: Seq<(Seq<u8>, Node)>,
    base: Seq<u8>,
)
    ensures
        files_in_all(dirs.push(entries)) == files_listed(listed(entries)) + files_in_all(
            dirs + walked(entries),
        ),
        dirs_listed(base, listed(entries)).len() == walked(entries).len(),
    decreases entries.len(),
{
    assert(dirs.push(entries).drop_last() =~= dirs);
    if entries.len() == 0 {
        assert(dirs + walked(entries) =~= dirs);
    } else {
        let front = entries.drop_last();
        law_a_visit_keeps_the_number_of_files(dirs, front, base);
        assert(dirs.push(front).drop_last() =~= dirs);
        assert(listed(entries).drop_last() =~= listed(front));
        assert(listed(entries).last() == (entries.last().0, entries.last().1.kind()));
        match entries.last().1 {
            Node::Dir(inner) => {
                if !is_dot_git(entries.last().0) {
                    assert((dirs + walked(entries)).drop_last() =~= dirs + walked(front));
                }
            },
            _ => {},
        }
    }
}

/// A checkout goes on exactly where it holds the lock. It gives up where the
/// attempt itself failed; where another process holds the lock it gives up at
/// once if it is to fail fast, goes on waiting if it has no deadline, and else
/// sleeps a tenth of a second, or what is left until its deadline, which ends it.
pub proof fn law_a_checkout_goes_on_only_with_the_lock(
    mode: LockMode,
    attempt: LockAttempt,
    elapsed: u128,
    timeout: u128,
)
    ensures
        mode.next(attempt, elapsed) == LockStep::Held <==> attempt == LockAttempt::Taken,
        mode.next(attempt, elapsed) == LockStep::Broken <==> attempt == LockAttempt::Failed,
        mode.next(attempt, elapsed) == LockStep::Busy <==> attempt == LockAttempt::Contended && mode
            == LockMode::FailFast,
        mode.next(attempt, elapsed) == LockStep::Block <==> attempt == LockAttempt::Contended
            && mode matches LockMode::Wait { timeout: None },
        mode.next(attempt, elapsed) == LockStep::TimedOut <==> attempt == LockAttempt::Contended
            && (mode matches LockMode::Wait { timeout: Some(t) } && t <= elapsed),
        elapsed + 100_000_000 <= timeout ==> waiting_for(timeout).next(
            LockAttempt::Contended,
            elapsed,
        ) == LockStep::Sleep(100_000_000),
        elapsed < timeout < elapsed + 100_000_000 ==> waiting_for(timeout).next(
            LockAttempt::Contended,
            elapsed,
        ) == LockStep::Sleep((timeout - elapsed) as u128),
{
}

/// Giving up on the lock is an error that says which worktree is busy, for how
/// long it was waited for, or what the attempt said; nothing else is one.
pub proof fn law_giving_up_on_the_lock_is_an_error(
    mode: LockMode,
    attempt: LockAttempt,
    elapsed: u128,
    worktree: Seq<char>,
    timeout: Seq<char>,
    source: Seq<char>,
)
    ensures
        attempt == LockAttempt::Taken ==> lock_failure(
            mode.next(attempt, elapsed),
            worktree,
            timeout,
            source,
        ) is None,
        attempt == LockAttempt::Failed ==> lock_failure(
            mode.next(attempt, elapsed),
            worktree,
            timeout,
            source,
        ) == Some(ServerErrorView::Lock(source)),
        attempt == LockAttempt::Contended ==> lock_failure(
            mode.next(attempt, elapsed),
            worktree,
            timeout,
            source,
        ) == match mode {
            LockMode::FailFast => Some(ServerErrorView::WorktreeBusy { worktree }),
            LockMode::Wait { timeout: Some(t) } => if t <= elapsed {
                Some(ServerErrorView::LockTimeout { worktree, timeout })
            } else {
                None
            },
            LockMode::Wait { timeout: None } => None,
        },
{
}

/// What git named is what it printed between white space, where it succeeded and
/// printed anything else.
pub proof fn law_a_tree_is_what_was_printed(
    success: bool,
    before: Seq<char>,
    name: Seq<char>,
    after: Seq<char>,
)
    requires
        forall|k: int| 0 <= k < before.len() ==> is_white(#[trigger] before[k]),
        forall|k: int| 0 <= k < after.len() ==> is_white(#[trigger] after[k]),
        name.len() > 0 ==> !is_white(name[0]) && !is_white(name.last()),
    ensures
        tree_named(success, before + name + after) == if success && name.len() > 0 {
            Some(name)
        } else {
            None
        },
{
    let s = before + name + after;
    let i = before.len() as int;
    let j = i + name.len();
    assert forall|k: int| 0 <= k < i implies is_white(#[trigger] s[k]) by {
        assert(s[k] == before[k]);
    }
    assert forall|k: int| j <= k < s.len() implies is_white(#[trigger] s[k]) by {
        assert(s[k] == after[k - j]);
    }
    if name.len() > 0 {
        assert(s[i] == name[0]);
        assert(s[j - 1] == name.last());
    }
    law_trimming_takes_white_space_at_the_ends(s, i, j);
    assert(s.subrange(i, j) =~= name);
}

proof fn lemma_count_with(lines: Seq<Seq<char>>, head: Seq<char>)
    ensures
        count_with(lines, head) == lines.filter(|l: Seq<char>| head.is_prefix_of(l)).len(),
    decreases lines.len(),
{
    reveal(Seq::filter);
    if lines.len() > 0 {
        lemma_count_with(lines.drop_last(), head);
    }
}

/// A sweep removed one entry for each line that says so.
pub proof fn law_each_line_of_a_sweep_is_an_entry(lines: Seq<Seq<char>>)
    ensures
        count_with(lines, "Removing "@) == lines.filter(
            |l: Seq<char>| "Removing "@.is_prefix_of(l),
        ).len(),
{
    lemma_count_with(lines, "Removing "@);
}

/// A comparison speaks of one path on a line. The paths that are marked as added
/// are those that a checkout removes, and every other path is one that it writes.
pub proof fn law_added_paths_are_removed_and_others_written(
    delta: PathDelta,
    lines: Seq<Seq<char>>,
)
    ensures
        is_delta(delta, lines) <==> {
            &&& delta.to_remove == lines.filter(|l: Seq<char>| l.len() > 0 && l[0] == 'A').len()
            &&& delta.to_write == lines.filter(|l: Seq<char>| l.len() > 0 && l[0] != 'A').len()
        },
{
    lemma_delta(lines);
}

proof fn lemma_delta(lines: Seq<Seq<char>>)
    ensures
        count_with(lines, seq!['A']) == lines.filter(
            |l: Seq<char>| l.len() > 0 && l[0] == 'A',
        ).len(),
        count_with(lines, seq!['A']) + count_empty(lines) + lines.filter(
            |l: Seq<char>| l.len() > 0 && l[0] != 'A',
        ).len() == lines.len(),
    decreases lines.len(),
{
    reveal(Seq::filter);
    if lines.len() > 0 {
        lemma_delta(lines.drop_last());
        let last = lines.last();
        if last.len() > 0 {
            assert(last.subrange(0, 1) =~= seq![last[0]]);
            assert(seq![last[0]][0] == last[0]);
            assert(seq!['A'][0] == 'A');
        }
    }
}

/// A comparison with the index reads no file of the worktree, and one with the
/// worktree does: they differ by that one word, and both end in the tree.
pub proof fn law_comparisons_differ_in_what_they_read(tree: Seq<char>)
    ensures
        diff_args_of(tree, Compare::Index).last() == tree,
        diff_args_of(tree, Compare::Worktree).last() == tree,
        diff_args_of(tree, Compare::Index).drop_last() == diff_args_of(
            tree,
            Compare::Worktree,
        ).drop_last().push("--cached"@),
        diff_args_of(tree, Compare::Worktree).drop_last() == seq![
            "diff-index"@,
            "--name-status"@,
            "--no-renames"@,
        ],
{
}

/// An index is warm exactly where git reported how many entries it read, cold
/// where git reported other things, and unknown where it reported nothing. Its
/// entries are those that git wrote last, or else those that it read.
pub proof fn law_an_index_is_warm_where_it_was_read(
    trace: Option<Seq<EventView>>,
    i: int,
    j: int,
)
    ensures
        trace is None ==> index_says(trace) == ("unknown"@, None::<i64>),
        trace matches Some(events) ==> {
            &&& index_says(trace).0 == "warm"@ || index_says(trace).0 == "cold"@
            &&& 0 <= i < events.len() && reports(events[i], "index"@, "read/cache_nr"@)
                ==> index_says(trace).0 == "warm"@
            &&& (forall|k: int|
                0 <= k < events.len() ==> !reports(
                    #[trigger] events[k],
                    "index"@,
                    "read/cache_nr"@,
                )) ==> index_says(trace).0 == "cold"@
            &&& 0 <= j < events.len() && reports(events[j], "index"@, "write/cache_nr"@) && (
            forall|k: int|
                j < k < events.len() ==> !reports(
                    #[trigger] events[k],
                    "index"@,
                    "write/cache_nr"@,
                )) ==> index_says(trace).1 == Some(events[j]->value)
            &&& (forall|k: int|
                0 <= k < events.len() ==> !reports(
                    #[trigger] events[k],
                    "index"@,
                    "write/cache_nr"@,
                )) ==> index_says(trace).1 == last_value(events, "index"@, "read/cache_nr"@)
        },
{
    if let Some(events) = trace {
        law_the_last_report_of_a_counter_counts(events, "index"@, "read/cache_nr"@, i);
        law_the_last_report_of_a_counter_counts(events, "index"@, "write/cache_nr"@, j);
    }
}

/// Everything but git directories counts: an entry that is no directory is a file
/// of the worktree, and one that is a directory is looked into.
pub proof fn law_everything_but_git_directories_counts(
    base: Seq<u8>,
    entries: Seq<(Seq<u8>, FileKind)>,
)
    ensures
        files_listed(entries) == entries.filter(
            |e: (Seq<u8>, FileKind)| e.1 != FileKind::Dir && e.0 != vstd::utf8::encode_utf8(
                ".git"@,
            ),
        ).len(),
        dirs_listed(base, entries) == entries.filter(
            |e: (Seq<u8>, FileKind)| e.1 == FileKind::Dir && e.0 != vstd::utf8::encode_utf8(
                ".git"@,
            ),
        ).map_values(|e: (Seq<u8>, FileKind)| joined(base, e.0)),
    decreases entries.len(),
{
    reveal(Seq::filter);
    reveal_strlit(".git");
    vstd::utf8::is_ascii_chars_encode_utf8(".git"@);
    assert(vstd::utf8::encode_utf8(".git"@) =~= seq![46u8, 103, 105, 116]);
    if entries.len() > 0 {
        law_everything_but_git_directories_counts(base, entries.drop_last());
        assert(dirs_listed(base, entries) =~= entries.filter(
            |e: (Seq<u8>, FileKind)| e.1 == FileKind::Dir && e.0 != vstd::utf8::encode_utf8(
                ".git"@,
            ),
        ).map_values(|e: (Seq<u8>, FileKind)| joined(base, e.0)));
    } else {
        assert(dirs_listed(base, entries) =~= entries.filter(
            |e: (Seq<u8>, FileKind)| e.1 == FileKind::Dir && e.0 != vstd::utf8::encode_utf8(
                ".git"@,
            ),
        ).map_values(|e: (Seq<u8>, FileKind)| joined(base, e.0)));
    }
}

/// What is kept for a worktree lies under the git directory, in a directory that
/// is named after the hash of its path.
pub proof fn law_state_lies_under_the_git_directory(
    git_dir: Seq<u8>,
    hash: u64,
    name: Seq<char>,
)
    requires
        git_dir.len() > 0,
        git_dir.last() != 47,
        name.len() > 0,
        vstd::utf8::is_ascii_chars(name),
        name[0] != '/',
    ensures
        state_file_of(git_dir, hash, name) == git_dir + vstd::utf8::encode_utf8(
            "/git-full-send/worktrees/"@,
        ) + vstd::utf8::encode_utf8(hexadecimal(hash as int, 16)) + seq![47u8]
            + vstd::utf8::encode_utf8(name),
{
    reveal_strlit("git-full-send");
    reveal_strlit("worktrees");
    reveal_strlit("/git-full-send/worktrees/");
    vstd::utf8::is_ascii_chars_encode_utf8("git-full-send"@);
    vstd::utf8::is_ascii_chars_encode_utf8("worktrees"@);
    vstd::utf8::is_ascii_chars_encode_utf8("/git-full-send/worktrees/"@);
    vstd::utf8::is_ascii_chars_encode_utf8(name);
    assert(hexadecimal_limit(16) == 0x1_0000_0000_0000_0000) by {
        reveal_with_fuel(hexadecimal_limit, 17);
    }
    lemma_hexadecimal(hash as int, hash as int, 16);
    let key = hexadecimal(hash as int, 16);
    vstd::utf8::is_ascii_chars_encode_utf8(key);
    let k = vstd::utf8::encode_utf8(key);
    assert(key[0] != '/' && key[15] != '/');
    assert(k[0] != 47 && k[15] != 47);
    let one = joined(git_dir, vstd::utf8::encode_utf8("git-full-send"@));
    assert(one.last() != 47);
    let two = joined(one, vstd::utf8::encode_utf8("worktrees"@));
    assert(two.last() != 47);
    let three = joined(two, k);
    assert(three.last() == k[15]);
    assert(state_file_of(git_dir, hash, name) =~= git_dir + vstd::utf8::encode_utf8(
        "/git-full-send/worktrees/"@,
    ) + k + seq![47u8] + vstd::utf8::encode_utf8(name));
}

/// The lock is tried for first, and blocked on only where a checkout may wait for
/// as long as it takes.
pub proof fn law_only_an_endless_wait_blocks(mode: LockMode)
    ensures
        mode.start() == LockStep::Block <==> mode matches LockMode::Wait { timeout: None },
        mode.start() == LockStep::Try <==> mode == LockMode::FailFast || (
        mode matches LockMode::Wait { timeout: Some(_) }),
{
}

} // verus!
