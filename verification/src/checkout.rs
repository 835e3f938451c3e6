//! The steps of a checkout: name the trees, combine them, lock the worktree,
//! measure, reset the worktree to the tree and sweep what is left over.
//!
//! A stream that was never synced fails before anything of the worktree is
//! touched, and what overwrites the worktree runs under its lock.

use vstd::prelude::*;

use crate::protocol::{code_ref, code_ref_of, extra_ref, extra_ref_of, StreamId};
use crate::server::{ServerError, ServerErrorView};
use crate::text::{lines_of, lossy_text, push_text, texts, trim_text, trimmed, utf8_lossy};
use crate::trace2::Trace2;
use crate::worktree::{
    count_changed_paths, count_removed, count_with, diff_args, diff_args_of, index_says,
    index_state, is_delta, is_tree_unchanged, lock_error, lock_failure, resolve_code_tree,
    resolve_extra_tree, trace_view, tree_args, tree_named, ChangedPaths, CleanStats, Compare,
    IndexState, LockMode, LockStep, PathDelta, UpdateOptions,
};

verus! {

/// Where a checkout is.
#[derive(Debug, Clone, Copy, PartialEq, Eq, Structural)]
pub enum CheckoutStep {
    /// The tree of the `code` ref is to be named.
    ResolveCode,
    /// The tree of the `extra` ref is to be named.
    ResolveExtra,
    /// The `extra` tree is to be laid over the `code` tree.
    Combine,
    /// The worktree and the directory of its state are to be made.
    Prepare,
    /// The lock is to be taken.
    Lock,
    /// What there is to do is to be measured.
    Measure,
    /// The worktree is to be reset to the tree.
    ReadTree,
    /// What is left over is to be swept.
    Clean,
    /// The tree is to be noted as checked out.
    Remember,
    /// The checkout is done.
    Done,
    /// A step failed.
    Failed,
}

/// What a checkout does next.
#[derive(Debug)]
pub enum CheckoutAction {
    /// Run `git` with these arguments to name a tree.
    ResolveTree {
        /// The arguments.
        args: Vec<String>,
    },
    /// Lay one tree over another.
    Combine {
        /// The tree below.
        code: String,
        /// The tree above.
        extra: String,
    },
    /// Make the worktree and the directory of its state.
    Prepare,
    /// Take the lock.
    Lock(LockMode),
    /// Measure: compare with these arguments of `git`, and walk through the
    /// worktree where it is compared too.
    Measure {
        /// How to compare with the index.
        index_args: Vec<String>,
        /// How to compare with the disk, if that is asked for.
        worktree_args: Option<Vec<String>>,
    },
    /// Run `git` with these arguments on the worktree.
    Run {
        /// The step.
        step: &'static str,
        /// The arguments.
        args: Vec<String>,
    },
    /// Note the tree that was checked out.
    Remember {
        /// The tree.
        tree: String,
    },
    /// Record the report.
    Finish,
    /// Give up.
    Stop,
}

/// What a comparison printed.
#[derive(Debug)]
pub struct DiffOutput {
    /// Whether it succeeded.
    pub success: bool,
    /// What it printed.
    pub stdout: Vec<u8>,
}

/// How a step ended.
#[derive(Debug)]
pub enum CheckoutEvent {
    /// `git` was asked for a tree.
    Resolved {
        /// Whether it succeeded.
        success: bool,
        /// What it printed.
        stdout: Vec<u8>,
    },
    /// The trees were combined.
    Combined {
        /// The combined tree.
        tree: String,
    },
    /// The worktree is there.
    Prepared,
    /// The lock is held.
    Locked,
    /// What there is to do was measured.
    Measured {
        /// The size of the index, if there is one.
        index_bytes: Option<u64>,
        /// What was noted as last checked out, if it could be read.
        last_tree: Option<String>,
        /// The comparison with the index, if it could be started.
        vs_index: Option<DiffOutput>,
        /// The comparison with the disk, if it was asked for and could be started.
        vs_worktree: Option<DiffOutput>,
        /// How many files the worktree holds, if it was asked for and could be
        /// counted.
        files: Option<usize>,
    },
    /// `git` ran on the worktree.
    Ran {
        /// Whether it succeeded.
        succeeded: bool,
        /// What it printed.
        printed: Vec<u8>,
        /// What it said.
        stderr: Vec<u8>,
        /// What it reported of itself.
        trace: Option<Trace2>,
    },
    /// The tree was noted, or could not be: nothing depends on it.
    Remembered,
    /// The `extra` tree could not be read; what the attempt said.
    ExtraUnreadable(String),
    /// The lock was not taken.
    NotLocked {
        /// Where the attempts ended.
        ended: LockStep,
        /// How the time to wait is shown.
        timeout: String,
        /// What the last attempt said.
        source: String,
    },
    /// The step could not be performed; what the attempt said.
    Failed(String),
}

/// Whether a step about the lock ends the attempts without it.
pub open spec fn gives_up(step: LockStep) -> bool {
    step is Busy || step is TimedOut || step is Broken
}

/// Whether a step can end in this way.
pub open spec fn ends(step: CheckoutStep, event: CheckoutEvent) -> bool {
    match step {
        CheckoutStep::ResolveCode => event is Resolved || event is Failed,
        CheckoutStep::ResolveExtra => event is Resolved || event is Failed,
        CheckoutStep::Combine => event is Combined || event is ExtraUnreadable || event is Failed,
        CheckoutStep::Prepare => event is Prepared || event is Failed,
        CheckoutStep::Lock => event is Locked || (event matches CheckoutEvent::NotLocked {
            ended,
            ..
        } && gives_up(ended)),
        CheckoutStep::Measure => event is Measured,
        CheckoutStep::ReadTree => event is Ran || event is Failed,
        CheckoutStep::Clean => event is Ran || event is Failed,
        CheckoutStep::Remember => event is Remembered,
        CheckoutStep::Done => false,
        CheckoutStep::Failed => false,
    }
}

/// A checkout at some step.
#[verifier::ext_equal]
pub struct CheckoutView {
    pub stream: Seq<char>,
    pub worktree: Seq<char>,
    pub options: UpdateOptions,
    pub step: CheckoutStep,
    pub code: Seq<char>,
    pub extra: Option<Seq<char>>,
    pub tree: Seq<char>,
    pub index_bytes: Option<u64>,
    pub changed: ChangedPaths,
    pub files: Option<usize>,
    pub index_state: Seq<char>,
    pub index_entries: Option<i64>,
    pub removed: nat,
    pub failure: Option<ServerErrorView>,
}

impl CheckoutView {
    /// The checkout at another step.
    pub open spec fn at(self, step: CheckoutStep) -> CheckoutView {
        CheckoutView { step, ..self }
    }

    /// The checkout that failed with this error.
    pub open spec fn failed(self, error: ServerErrorView) -> CheckoutView {
        CheckoutView { step: CheckoutStep::Failed, failure: Some(error), ..self }
    }
}

/// What a comparison counted.
pub open spec fn is_counted(delta: Option<PathDelta>, output: Option<DiffOutput>) -> bool {
    match output {
        Some(diff) => if diff.success {
            delta matches Some(d) && is_delta(d, lines_of(utf8_lossy(diff.stdout@)))
        } else {
            delta is None
        },
        None => delta is None,
    }
}

/// The error of a step of git that failed.
pub open spec fn step_failure(step: Seq<char>, stderr: Seq<u8>) -> ServerErrorView {
    ServerErrorView::Worktree { step, stderr: trimmed(utf8_lossy(stderr)) }
}

/// The error of a step that could not be performed.
pub open spec fn attempt_failure(step: CheckoutStep, source: Seq<char>) -> ServerErrorView {
    match step {
        CheckoutStep::Combine => ServerErrorView::BuildTree(source),
        CheckoutStep::Prepare => ServerErrorView::CreateWorktree(source),
        CheckoutStep::ReadTree => ServerErrorView::RunGit { step: "read-tree"@, source },
        CheckoutStep::Clean => ServerErrorView::RunGit { step: "clean"@, source },
        _ => ServerErrorView::RunGit { step: "rev-parse"@, source },
    }
}

/// Whether `b` follows on `a` where its step ended with `event`.
pub open spec fn follows(a: CheckoutView, event: CheckoutEvent, b: CheckoutView) -> bool {
    match event {
        CheckoutEvent::Resolved { success, stdout } => {
            let named = tree_named(success, utf8_lossy(stdout@));
            if a.step == CheckoutStep::ResolveCode {
                match named {
                    Some(tree) => b == (CheckoutView {
                        code: tree,
                        step: CheckoutStep::ResolveExtra,
                        ..a
                    }),
                    None => b == a.failed(
                        ServerErrorView::MissingCodeRef { ref_name: code_ref_of(a.stream) },
                    ),
                }
            } else {
                match named {
                    Some(tree) => b == (CheckoutView {
                        extra: Some(tree),
                        step: CheckoutStep::Combine,
                        ..a
                    }),
                    None => b == (CheckoutView {
                        tree: a.code,
                        step: CheckoutStep::Prepare,
                        ..a
                    }),
                }
            }
        },
        CheckoutEvent::Combined { tree } => b == (CheckoutView {
            tree: tree@,
            step: CheckoutStep::Prepare,
            ..a
        }),
        CheckoutEvent::Prepared => b == a.at(CheckoutStep::Lock),
        CheckoutEvent::Locked => b == a.at(CheckoutStep::Measure),
        CheckoutEvent::Measured { index_bytes, last_tree, vs_index, vs_worktree, files } => {
            &&& b == (CheckoutView {
                index_bytes,
                changed: b.changed,
                files: b.files,
                step: CheckoutStep::ReadTree,
                ..a
            })
            &&& b.changed.tree_unchanged == (last_tree matches Some(last) && trimmed(last@)
                == a.tree)
            &&& is_counted(b.changed.vs_index, vs_index)
            &&& if a.options.measure_worktree {
                is_counted(b.changed.vs_worktree, vs_worktree) && b.files == files
            } else {
                b.changed.vs_worktree is None && b.files is None
            }
        },
        CheckoutEvent::Ran { succeeded, printed, stderr, trace } => if a.step
            == CheckoutStep::ReadTree {
            if succeeded {
                b == (CheckoutView {
                    index_state: index_says(trace_view(trace)).0,
                    index_entries: index_says(trace_view(trace)).1,
                    step: CheckoutStep::Clean,
                    ..a
                })
            } else {
                b == a.failed(step_failure("read-tree"@, stderr@))
            }
        } else {
            if succeeded {
                b == (CheckoutView {
                    removed: count_with(lines_of(utf8_lossy(printed@)), "Removing "@),
                    step: CheckoutStep::Remember,
                    ..a
                })
            } else {
                b == a.failed(step_failure("clean"@, stderr@))
            }
        },
        CheckoutEvent::Remembered => b == a.at(CheckoutStep::Done),
        CheckoutEvent::ExtraUnreadable(source) => b == a.failed(
            ServerErrorView::ResolveExtra(source@),
        ),
        CheckoutEvent::NotLocked { ended, timeout, source } => b == (CheckoutView {
            step: CheckoutStep::Failed,
            failure: lock_failure(ended, a.worktree, timeout@, source@),
            ..a
        }),
        CheckoutEvent::Failed(source) => b == a.failed(attempt_failure(a.step, source@)),
    }
}

/// The report of a completed checkout.
#[derive(Debug)]
pub struct UpdateWorktreeReport {
    /// The stream that was checked out.
    pub stream: StreamId,
    /// The worktree.
    pub worktree: String,
    /// The tree that was checked out.
    pub tree: String,
    /// The index that the checkout ran against.
    pub index: IndexState,
    /// How much of the worktree had to change.
    pub changed: ChangedPaths,
    /// What the sweep removed.
    pub clean: CleanStats,
    /// How many files the worktree holds, where that was counted.
    pub worktree_files: Option<usize>,
}

/// Decides the steps of a checkout: [`Checkout::action`] says what to do, and
/// [`Checkout::on_event`] takes how it ended.
pub struct Checkout {
    stream: StreamId,
    worktree: String,
    options: UpdateOptions,
    step: CheckoutStep,
    code: String,
    extra: Option<String>,
    tree: String,
    index_bytes: Option<u64>,
    changed: ChangedPaths,
    files: Option<usize>,
    index: IndexState,
    clean: CleanStats,
    failure: Option<ServerError>,
}

impl View for Checkout {
    type V = CheckoutView;

    closed spec fn view(&self) -> CheckoutView {
        CheckoutView {
            stream: self.stream@,
            worktree: self.worktree@,
            options: self.options,
            step: self.step,
            code: self.code@,
            extra: match self.extra {
                Some(tree) => Some(tree@),
                None => None,
            },
            tree: self.tree@,
            index_bytes: self.index_bytes,
            changed: self.changed,
            files: self.files,
            index_state: self.index.state@,
            index_entries: self.index.entries,
            removed: self.clean.removed as nat,
            failure: match self.failure {
                Some(e) => Some(e@),
                None => None,
            },
        }
    }
}

fn counted(output: &Option<DiffOutput>) -> (r: Option<PathDelta>)
    ensures
        is_counted(r, *output),
{
    match output {
        Some(diff) => count_changed_paths(diff.success, diff.stdout.as_slice()),
        None => None,
    }
}

fn failed_step(step: &'static str, stderr: &Vec<u8>) -> (r: ServerError)
    ensures
        r@ == step_failure(step@, stderr@),
{
    let said = lossy_text(stderr.as_slice());
    ServerError::Worktree { step, stderr: trim_text(said.as_str()) }
}

fn failed_attempt(step: CheckoutStep, source: String) -> (r: ServerError)
    ensures
        r@ == attempt_failure(step, source@),
{
    match step {
        CheckoutStep::Combine => ServerError::BuildTree(source),
        CheckoutStep::Prepare => ServerError::CreateWorktree(source),
        CheckoutStep::ReadTree => ServerError::RunGit { step: "read-tree", source },
        CheckoutStep::Clean => ServerError::RunGit { step: "clean", source },
        _ => ServerError::RunGit { step: "rev-parse", source },
    }
}

fn read_tree_args(tree: &str) -> (r: Vec<String>)
    ensures
        texts(r@) == seq!["read-tree"@, "--reset"@, "-u"@, tree@],
{
    let mut out: Vec<String> = Vec::new();
    push_text(&mut out, "read-tree");
    push_text(&mut out, "--reset");
    push_text(&mut out, "-u");
    push_text(&mut out, tree);
    proof {
        assert(texts(out@) =~= seq!["read-tree"@, "--reset"@, "-u"@, tree@]);
    }
    out
}

fn clean_args() -> (r: Vec<String>)
    ensures
        texts(r@) == seq!["clean"@, "-d"@, "-f"@],
{
    let mut out: Vec<String> = Vec::new();
    push_text(&mut out, "clean");
    push_text(&mut out, "-d");
    push_text(&mut out, "-f");
    proof {
        assert(texts(out@) =~= seq!["clean"@, "-d"@, "-f"@]);
    }
    out
}

impl Checkout {
    #[verifier::type_invariant]
    spec fn well_formed(self) -> bool {
        &&& self.step == CheckoutStep::Combine ==> self.extra is Some
        &&& (self.failure is Some) == (self.step == CheckoutStep::Failed)
    }

    /// A checkout that has yet to do anything. `worktree` is shown in errors and in
    /// the report.
    pub fn new(stream: StreamId, worktree: String, options: UpdateOptions) -> (r: Self)
        ensures
            r@.stream == stream@,
            r@.worktree == worktree@,
            r@.options == options,
            r@.step == CheckoutStep::ResolveCode,
            r@.failure is None,
    {
        Checkout {
            stream,
            worktree,
            options,
            step: CheckoutStep::ResolveCode,
            code: String::new(),
            extra: None,
            tree: String::new(),
            index_bytes: None,
            changed: ChangedPaths { tree_unchanged: false, vs_index: None, vs_worktree: None },
            files: None,
            index: IndexState { state: "unknown", bytes: None, entries: None },
            clean: CleanStats::default(),
            failure: None,
        }
    }

    /// What to do next.
    pub fn action(&self) -> (r: CheckoutAction)
        ensures
            match self@.step {
                CheckoutStep::ResolveCode => r matches CheckoutAction::ResolveTree { args }
                    && texts(args@) == seq![
                    "rev-parse"@,
                    "--verify"@,
                    "--quiet"@,
                    code_ref_of(self@.stream) + "^{tree}"@,
                ],
                CheckoutStep::ResolveExtra => r matches CheckoutAction::ResolveTree { args }
                    && texts(args@) == seq![
                    "rev-parse"@,
                    "--verify"@,
                    "--quiet"@,
                    extra_ref_of(self@.stream) + "^{tree}"@,
                ],
                CheckoutStep::Combine => r matches CheckoutAction::Combine { code, extra } && code@
                    == self@.code && self@.extra == Some(extra@),
                CheckoutStep::Prepare => r is Prepare,
                CheckoutStep::Lock => r == CheckoutAction::Lock(self@.options.lock),
                CheckoutStep::Measure => r matches CheckoutAction::Measure {
                    index_args,
                    worktree_args,
                } && texts(index_args@) == diff_args_of(self@.tree, Compare::Index)
                    && match worktree_args {
                    Some(args) => self@.options.measure_worktree && texts(args@) == diff_args_of(
                        self@.tree,
                        Compare::Worktree,
                    ),
                    None => !self@.options.measure_worktree,
                },
                CheckoutStep::ReadTree => r matches CheckoutAction::Run { step, args } && step@
                    == "read-tree"@ && texts(args@) == seq![
                    "read-tree"@,
                    "--reset"@,
                    "-u"@,
                    self@.tree,
                ],
                CheckoutStep::Clean => r matches CheckoutAction::Run { step, args } && step@
                    == "clean"@ && texts(args@) == seq!["clean"@, "-d"@, "-f"@],
                CheckoutStep::Remember => r matches CheckoutAction::Remember { tree } && tree@
                    == self@.tree,
                CheckoutStep::Done => r is Finish,
                CheckoutStep::Failed => r is Stop,
            },
    {
        proof {
            use_type_invariant(self);
        }
        match self.step {
            CheckoutStep::ResolveCode => {
                let name = code_ref(&self.stream);
                CheckoutAction::ResolveTree { args: tree_args(name.as_str()) }
            },
            CheckoutStep::ResolveExtra => {
                let name = extra_ref(&self.stream);
                CheckoutAction::ResolveTree { args: tree_args(name.as_str()) }
            },
            CheckoutStep::Combine => match &self.extra {
                Some(extra) => CheckoutAction::Combine {
                    code: self.code.clone(),
                    extra: extra.clone(),
                },
                None => CheckoutAction::Stop,
            },
            CheckoutStep::Prepare => CheckoutAction::Prepare,
            CheckoutStep::Lock => CheckoutAction::Lock(self.options.lock),
            CheckoutStep::Measure => CheckoutAction::Measure {
                index_args: diff_args(self.tree.as_str(), Compare::Index),
                worktree_args: if self.options.measure_worktree {
                    Some(diff_args(self.tree.as_str(), Compare::Worktree))
                } else {
                    None
                },
            },
            CheckoutStep::ReadTree => CheckoutAction::Run {
                step: "read-tree",
                args: read_tree_args(self.tree.as_str()),
            },
            CheckoutStep::Clean => CheckoutAction::Run { step: "clean", args: clean_args() },
            CheckoutStep::Remember => CheckoutAction::Remember { tree: self.tree.clone() },
            CheckoutStep::Done => CheckoutAction::Finish,
            CheckoutStep::Failed => CheckoutAction::Stop,
        }
    }

    /// The checkout after its step ended with `event`.
    pub fn on_event(self, event: CheckoutEvent) -> (r: Self)
        requires
            ends(self@.step, event),
        ensures
            follows(self@, event, r@),
    {
        proof {
            use_type_invariant(&self);
        }
        match event {
            CheckoutEvent::Resolved { success, stdout } => {
                if self.step == CheckoutStep::ResolveCode {
                    match resolve_code_tree(&self.stream, success, stdout.as_slice()) {
                        Ok(tree) => Checkout {
                            code: tree,
                            step: CheckoutStep::ResolveExtra,
                            ..self
                        },
                        Err(e) => Checkout {
                            step: CheckoutStep::Failed,
                            failure: Some(e),
                            ..self
                        },
                    }
                } else {
                    match resolve_extra_tree(success, stdout.as_slice()) {
                        Some(tree) => Checkout {
                            extra: Some(tree),
                            step: CheckoutStep::Combine,
                            ..self
                        },
                        None => {
                            let tree = self.code.clone();
                            Checkout { tree, step: CheckoutStep::Prepare, ..self }
                        },
                    }
                }
            },
            CheckoutEvent::Combined { tree } => Checkout {
                tree,
                step: CheckoutStep::Prepare,
                ..self
            },
            CheckoutEvent::Prepared => Checkout { step: CheckoutStep::Lock, ..self },
            CheckoutEvent::Locked => Checkout { step: CheckoutStep::Measure, ..self },
            CheckoutEvent::Measured { index_bytes, last_tree, vs_index, vs_worktree, files } => {
                let tree_unchanged = match &last_tree {
                    Some(last) => is_tree_unchanged(Some(last.as_str()), self.tree.as_str()),
                    None => false,
                };
                let asked = self.options.measure_worktree;
                let changed = ChangedPaths {
                    tree_unchanged,
                    vs_index: counted(&vs_index),
                    vs_worktree: if asked {
                        counted(&vs_worktree)
                    } else {
                        None
                    },
                };
                let files = if asked {
                    files
                } else {
                    None
                };
                Checkout { index_bytes, changed, files, step: CheckoutStep::ReadTree, ..self }
            },
            CheckoutEvent::Ran { succeeded, printed, stderr, trace } => {
                if self.step == CheckoutStep::ReadTree {
                    if succeeded {
                        let index = index_state(self.index_bytes, &trace);
                        Checkout { index, step: CheckoutStep::Clean, ..self }
                    } else {
                        let e = failed_step("read-tree", &stderr);
                        Checkout { step: CheckoutStep::Failed, failure: Some(e), ..self }
                    }
                } else if succeeded {
                    let said = lossy_text(printed.as_slice());
                    let clean = count_removed(said.as_str());
                    Checkout { clean, step: CheckoutStep::Remember, ..self }
                } else {
                    let e = failed_step("clean", &stderr);
                    Checkout { step: CheckoutStep::Failed, failure: Some(e), ..self }
                }
            },
            CheckoutEvent::Remembered => Checkout { step: CheckoutStep::Done, ..self },
            CheckoutEvent::ExtraUnreadable(source) => Checkout {
                step: CheckoutStep::Failed,
                failure: Some(ServerError::ResolveExtra(source)),
                ..self
            },
            CheckoutEvent::NotLocked { ended, timeout, source } => {
                let failure = lock_error(
                    ended,
                    self.worktree.as_str(),
                    timeout.as_str(),
                    source.as_str(),
                );
                Checkout { step: CheckoutStep::Failed, failure, ..self }
            },
            CheckoutEvent::Failed(source) => {
                let e = failed_attempt(self.step, source);
                Checkout { step: CheckoutStep::Failed, failure: Some(e), ..self }
            },
        }
    }

    /// The report of the checkout, or the error that ended it, once it is over.
    pub fn outcome(self) -> (r: Option<Result<UpdateWorktreeReport, ServerError>>)
        ensures
            match r {
                Some(Ok(report)) => {
                    &&& self@.step == CheckoutStep::Done
                    &&& report.stream@ == self@.stream
                    &&& report.worktree@ == self@.worktree
                    &&& report.tree@ == self@.tree
                    &&& report.index.state@ == self@.index_state
                    &&& report.index.bytes == self@.index_bytes
                    &&& report.index.entries == self@.index_entries
                    &&& report.changed == self@.changed
                    &&& report.clean.removed == self@.removed
                    &&& report.worktree_files == self@.files
                },
                Some(Err(e)) => self@.step == CheckoutStep::Failed && self@.failure == Some(e@),
                None => self@.step != CheckoutStep::Done && self@.step != CheckoutStep::Failed,
            },
    {
        proof {
            use_type_invariant(&self);
        }
        let Checkout {
            stream,
            worktree,
            options: _,
            step,
            code: _,
            extra: _,
            tree,
            index_bytes,
            changed,
            files,
            index,
            clean,
            failure,
        } = self;
        match failure {
            Some(e) => Some(Err(e)),
            None => if step == CheckoutStep::Done {
                Some(
                    Ok(
                        UpdateWorktreeReport {
                            stream,
                            worktree,
                            tree,
                            index: IndexState { bytes: index_bytes, ..index },
                            changed,
                            clean,
                            worktree_files: files,
                        },
                    ),
                )
            } else {
                None
            },
        }
    }
}

/// Whether the states follow on each other, from a checkout that has yet to do
/// anything, by the events between them.
pub open spec fn is_checkout(states: Seq<CheckoutView>, events: Seq<CheckoutEvent>) -> bool {
    &&& states.len() == events.len() + 1
    &&& states[0].step == CheckoutStep::ResolveCode
    &&& forall|i: int|
        0 <= i < events.len() ==> ends(states[i].step, #[trigger] events[i]) && follows(
            states[i],
            events[i],
            states[i + 1],
        )
}

/// Whether what runs at this step overwrites the worktree.
pub open spec fn overwrites(step: CheckoutStep) -> bool {
    step == CheckoutStep::ReadTree || step == CheckoutStep::Clean
}

/// How far a step is from the start.
spec fn rank(step: CheckoutStep) -> int {
    match step {
        CheckoutStep::ResolveCode => 0,
        CheckoutStep::ResolveExtra => 1,
        CheckoutStep::Combine => 2,
        CheckoutStep::Prepare => 3,
        CheckoutStep::Lock => 4,
        CheckoutStep::Measure => 5,
        CheckoutStep::ReadTree => 6,
        CheckoutStep::Clean => 7,
        CheckoutStep::Remember => 8,
        CheckoutStep::Done => 9,
        CheckoutStep::Failed => 10,
    }
}

proof fn lemma_passed(
    states: Seq<CheckoutView>,
    events: Seq<CheckoutEvent>,
    i: int,
    step: CheckoutStep,
) -> (k: int)
    requires
        is_checkout(states, events),
        0 <= i < states.len(),
        states[i].step != CheckoutStep::Failed,
        step != CheckoutStep::Combine,
        rank(step) < rank(states[i].step),
    ensures
        0 <= k < i,
        states[k].step == step,
        states[k + 1].step != CheckoutStep::Failed,
    decreases i,
{
    assert(ends(states[i - 1].step, events[i - 1]));
    assert(follows(states[i - 1], events[i - 1], states[i]));
    if states[i - 1].step == step {
        i - 1
    } else {
        lemma_passed(states, events, i - 1, step)
    }
}

/// What overwrites the worktree runs only once its lock was taken.
pub proof fn law_a_worktree_is_overwritten_under_its_lock(
    states: Seq<CheckoutView>,
    events: Seq<CheckoutEvent>,
    i: int,
)
    requires
        is_checkout(states, events),
        0 <= i < states.len(),
        overwrites(states[i].step),
    ensures
        exists|k: int| 0 <= k < i && #[trigger] events[k] is Locked,
{
    let k = lemma_passed(states, events, i, CheckoutStep::Lock);
    assert(ends(states[k].step, events[k]));
    assert(follows(states[k], events[k], states[k + 1]));
}

/// A stream without a `code` ref fails the checkout before the worktree is made,
/// locked or overwritten.
pub proof fn law_a_stream_that_was_never_synced_touches_nothing(
    states: Seq<CheckoutView>,
    events: Seq<CheckoutEvent>,
    success: bool,
    stdout: Vec<u8>,
)
    requires
        is_checkout(states, events),
        events.len() > 0,
        events[0] == (CheckoutEvent::Resolved { success, stdout }),
        !success || trimmed(utf8_lossy(stdout@)).len() == 0,
    ensures
        states.len() == 2,
        states[1].step == CheckoutStep::Failed,
        states[1].failure == Some(
            ServerErrorView::MissingCodeRef { ref_name: code_ref_of(states[0].stream) },
        ),
{
    assert(follows(states[0], events[0], states[1]));
    if events.len() > 1 {
        assert(ends(states[1].step, events[1]));
    }
}

proof fn lemma_tree_stays(
    states: Seq<CheckoutView>,
    events: Seq<CheckoutEvent>,
    i: int,
    j: int,
)
    requires
        is_checkout(states, events),
        0 <= i <= j < states.len(),
        rank(states[i].step) >= 3,
    ensures
        states[j].tree == states[i].tree,
        rank(states[j].step) >= 3,
    decreases j - i,
{
    if i < j {
        lemma_tree_stays(states, events, i, j - 1);
        assert(ends(states[j - 1].step, events[j - 1]));
        assert(follows(states[j - 1], events[j - 1], states[j]));
    }
}

/// The tree that is compared, checked out, noted and reported is one and the
/// same.
pub proof fn law_one_tree_is_checked_out(
    states: Seq<CheckoutView>,
    events: Seq<CheckoutEvent>,
    i: int,
    j: int,
)
    requires
        is_checkout(states, events),
        0 <= i <= j < states.len(),
        states[i].step == CheckoutStep::Prepare,
    ensures
        states[j].tree == states[i].tree,
{
    lemma_tree_stays(states, events, i, j);
}

/// Without an `extra` tree, what is checked out is the `code` tree.
pub proof fn law_without_extra_the_code_tree_is_checked_out(
    states: Seq<CheckoutView>,
    events: Seq<CheckoutEvent>,
    i: int,
)
    requires
        is_checkout(states, events),
        0 <= i < events.len(),
        states[i].step == CheckoutStep::ResolveExtra,
        states[i + 1].step == CheckoutStep::Prepare,
    ensures
        states[i + 1].tree == states[i].code,
{
    assert(ends(states[i].step, events[i]));
    assert(follows(states[i], events[i], states[i + 1]));
}

/// The tree that a call of `git rev-parse` names, if it names one: what it printed,
/// without the white space around it.
pub open spec fn printed_tree(event: CheckoutEvent) -> Option<Seq<char>> {
    match event {
        CheckoutEvent::Resolved { success: true, stdout } => if trimmed(utf8_lossy(stdout@)).len()
            > 0 {
            Some(trimmed(utf8_lossy(stdout@)))
        } else {
            None
        },
        _ => None,
    }
}

/// Whether `events[from..]` take a checkout from its tree to its end: the worktree is
/// made, locked and measured, then overwritten and swept, and the tree is noted.
pub open spec fn checks_out(events: Seq<CheckoutEvent>, from: int) -> bool {
    &&& events.len() == from + 6
    &&& events[from] is Prepared
    &&& events[from + 1] is Locked
    &&& events[from + 2] is Measured
    &&& events[from + 3] matches CheckoutEvent::Ran { succeeded, .. } && succeeded
    &&& events[from + 4] matches CheckoutEvent::Ran { succeeded, .. } && succeeded
    &&& events[from + 5] is Remembered
}

proof fn lemma_next_step(states: Seq<CheckoutView>, events: Seq<CheckoutEvent>, i: int)
    requires
        is_checkout(states, events),
        0 <= i < states.len(),
        states.last().step == CheckoutStep::Done,
        states[i].step != CheckoutStep::Done,
    ensures
        i < events.len(),
        ends(states[i].step, events[i]),
        follows(states[i], events[i], states[i + 1]),
        states[i + 1].step != CheckoutStep::Failed,
{
    assert(ends(states[i].step, events[i]));
    if states[i + 1].step == CheckoutStep::Failed {
        if i + 1 < events.len() {
            assert(ends(states[i + 1].step, events[i + 1]));
        }
    }
}

proof fn lemma_checks_out(states: Seq<CheckoutView>, events: Seq<CheckoutEvent>, from: int)
    requires
        is_checkout(states, events),
        0 <= from < states.len(),
        states.last().step == CheckoutStep::Done,
        states[from].step == CheckoutStep::Prepare,
    ensures
        checks_out(events, from),
        states.last().tree == states[from].tree,
        states[from + 3].step == CheckoutStep::ReadTree,
        states[from + 3].tree == states[from].tree,
{
    lemma_next_step(states, events, from);
    lemma_next_step(states, events, from + 1);
    lemma_next_step(states, events, from + 2);
    lemma_next_step(states, events, from + 3);
    lemma_next_step(states, events, from + 4);
    lemma_next_step(states, events, from + 5);
    if from + 6 < events.len() {
        assert(ends(states[from + 6].step, events[from + 6]));
    }
}

/// A completed checkout takes the same steps, whatever its options: `code` names a
/// tree, and where `extra` names one too, exactly that tree was laid over the `code`
/// tree, and what came of it is what is checked out. Where `extra` names none, it is
/// the `code` tree.
pub proof fn law_a_completed_checkout_has_both_layers(
    states: Seq<CheckoutView>,
    events: Seq<CheckoutEvent>,
)
    requires
        is_checkout(states, events),
        states.last().step == CheckoutStep::Done,
    ensures
        events.len() >= 2,
        printed_tree(events[0]) is Some,
        match printed_tree(events[1]) {
            Some(extra) => {
                &&& states[2].step == CheckoutStep::Combine
                &&& Some(states[2].code) == printed_tree(events[0])
                &&& states[2].extra == Some(extra)
                &&& events[2] matches CheckoutEvent::Combined { tree } && states.last().tree
                    == tree@ && states[6].step == CheckoutStep::ReadTree && states[6].tree == tree@
                &&& checks_out(events, 3)
            },
            None => {
                &&& Some(states.last().tree) == printed_tree(events[0])
                &&& states[5].step == CheckoutStep::ReadTree
                &&& Some(states[5].tree) == printed_tree(events[0])
                &&& checks_out(events, 2)
            },
        },
{
    lemma_next_step(states, events, 0);
    lemma_next_step(states, events, 1);
    if printed_tree(events[1]) is Some {
        lemma_next_step(states, events, 2);
        lemma_checks_out(states, events, 3);
    } else {
        lemma_checks_out(states, events, 2);
    }
}

/// Two completed checkouts in which git printed the same trees check out the same
/// tree, whatever their options, their streams and their worktrees are.
pub proof fn law_the_options_do_not_change_the_tree(
    states: Seq<CheckoutView>,
    events: Seq<CheckoutEvent>,
    other_states: Seq<CheckoutView>,
    other_events: Seq<CheckoutEvent>,
)
    requires
        is_checkout(states, events),
        states.last().step == CheckoutStep::Done,
        is_checkout(other_states, other_events),
        other_states.last().step == CheckoutStep::Done,
        printed_tree(events[0]) == printed_tree(other_events[0]),
        printed_tree(events[1]) == printed_tree(other_events[1]),
        events[2] == other_events[2] || printed_tree(events[1]) is None,
    ensures
        states.last().tree == other_states.last().tree,
        events.len() == other_events.len(),
{
    law_a_completed_checkout_has_both_layers(states, events);
    law_a_completed_checkout_has_both_layers(other_states, other_events);
}

/// Stream, worktree and options stay what they are from the start of a checkout to
/// its end.
pub proof fn law_a_checkout_stays_with_its_stream(
    states: Seq<CheckoutView>,
    events: Seq<CheckoutEvent>,
    i: int,
)
    requires
        is_checkout(states, events),
        0 <= i < states.len(),
    ensures
        states[i].stream == states[0].stream,
        states[i].worktree == states[0].worktree,
        states[i].options == states[0].options,
    decreases i,
{
    if i > 0 {
        law_a_checkout_stays_with_its_stream(states, events, i - 1);
        assert(ends(states[i - 1].step, events[i - 1]));
        assert(follows(states[i - 1], events[i - 1], states[i]));
    }
}

/// What a completed checkout reports is what its steps said: the index as it was
/// measured and as git saw it, the comparisons, of which that with the disk and the
/// number of files only where they were asked for, and the lines in which the sweep
/// says that it removed something.
pub proof fn law_a_report_is_what_the_steps_said(
    states: Seq<CheckoutView>,
    events: Seq<CheckoutEvent>,
)
    requires
        is_checkout(states, events),
        states.last().step == CheckoutStep::Done,
    ensures
        ({
            let n = events.len() as int;
            let end = states.last();
            &&& n >= 8
            &&& events[n - 4] matches CheckoutEvent::Measured {
                index_bytes,
                last_tree,
                vs_index,
                vs_worktree,
                files,
            } && {
                &&& end.index_bytes == index_bytes
                &&& end.changed.tree_unchanged <==> last_tree is Some && trimmed(last_tree->0@)
                    == end.tree
                &&& end.changed.vs_index is Some <==> vs_index is Some && vs_index->0.success
                &&& end.changed.vs_worktree is Some <==> states[0].options.measure_worktree
                    && vs_worktree is Some && vs_worktree->0.success
                &&& end.changed.vs_index matches Some(d) ==> is_delta(
                    d,
                    lines_of(utf8_lossy(vs_index->0.stdout@)),
                )
                &&& end.changed.vs_worktree matches Some(d) ==> is_delta(
                    d,
                    lines_of(utf8_lossy(vs_worktree->0.stdout@)),
                )
                &&& end.files == if states[0].options.measure_worktree {
                    files
                } else {
                    None
                }
            }
            &&& events[n - 3] matches CheckoutEvent::Ran { trace, .. } && (
            end.index_state, end.index_entries) == index_says(trace_view(trace))
            &&& events[n - 2] matches CheckoutEvent::Ran { printed, .. } && end.removed
                == count_with(lines_of(utf8_lossy(printed@)), "Removing "@)
        }),
{
    law_a_completed_checkout_has_both_layers(states, events);
    let from = events.len() - 6;
    lemma_next_step(states, events, 0);
    lemma_next_step(states, events, 1);
    if from == 3 {
        lemma_next_step(states, events, 2);
    }
    assert(states[from].step == CheckoutStep::Prepare);
    lemma_next_step(states, events, from);
    lemma_next_step(states, events, from + 1);
    lemma_next_step(states, events, from + 2);
    lemma_next_step(states, events, from + 3);
    lemma_next_step(states, events, from + 4);
    lemma_next_step(states, events, from + 5);
    law_a_checkout_stays_with_its_stream(states, events, from + 2);
}

/// A step that cannot be performed, or that git fails, ends the checkout with the
/// error of that step, which says what the attempt or git said.
pub proof fn law_a_failed_step_says_what_failed(
    a: CheckoutView,
    event: CheckoutEvent,
    b: CheckoutView,
)
    requires
        ends(a.step, event),
        follows(a, event, b),
    ensures
        event matches CheckoutEvent::Failed(source) ==> b.step == CheckoutStep::Failed && {
            &&& a.step == CheckoutStep::ResolveCode || a.step == CheckoutStep::ResolveExtra
                ==> b.failure == Some(
                ServerErrorView::RunGit { step: "rev-parse"@, source: source@ },
            )
            &&& a.step == CheckoutStep::Combine ==> b.failure == Some(
                ServerErrorView::BuildTree(source@),
            )
            &&& a.step == CheckoutStep::Prepare ==> b.failure == Some(
                ServerErrorView::CreateWorktree(source@),
            )
            &&& a.step == CheckoutStep::ReadTree ==> b.failure == Some(
                ServerErrorView::RunGit { step: "read-tree"@, source: source@ },
            )
            &&& a.step == CheckoutStep::Clean ==> b.failure == Some(
                ServerErrorView::RunGit { step: "clean"@, source: source@ },
            )
        },
        event matches CheckoutEvent::ExtraUnreadable(source) ==> b.step == CheckoutStep::Failed
            && b.failure == Some(ServerErrorView::ResolveExtra(source@)),
        event matches CheckoutEvent::Ran { succeeded, stderr, .. } ==> !succeeded ==> b.step
            == CheckoutStep::Failed && b.failure == Some(
            ServerErrorView::Worktree {
                step: if a.step == CheckoutStep::ReadTree {
                    "read-tree"@
                } else {
                    "clean"@
                },
                stderr: trimmed(utf8_lossy(stderr@)),
            },
        ),
        event matches CheckoutEvent::NotLocked { ended, timeout, source } ==> b.step
            == CheckoutStep::Failed && {
            &&& ended is Busy ==> b.failure == Some(
                ServerErrorView::WorktreeBusy { worktree: a.worktree },
            )
            &&& ended is TimedOut ==> b.failure == Some(
                ServerErrorView::LockTimeout { worktree: a.worktree, timeout: timeout@ },
            )
            &&& ended is Broken ==> b.failure == Some(ServerErrorView::Lock(source@))
        },
{
}

/// A step ends in the answer to what it asked for, and in no other; every step
/// that runs git or touches the disk can also fail, and taking the lock ends with
/// the lock or in giving it up.
pub proof fn law_a_step_ends_in_its_own_answer(step: CheckoutStep, event: CheckoutEvent)
    ensures
        event is Resolved ==> (ends(step, event) <==> step == CheckoutStep::ResolveCode || step
            == CheckoutStep::ResolveExtra),
        event is Combined || event is ExtraUnreadable ==> (ends(step, event) <==> step
            == CheckoutStep::Combine),
        event is Prepared ==> (ends(step, event) <==> step == CheckoutStep::Prepare),
        event is Locked ==> (ends(step, event) <==> step == CheckoutStep::Lock),
        event matches CheckoutEvent::NotLocked { ended, .. } ==> (ends(step, event) <==> step
            == CheckoutStep::Lock && (ended == LockStep::Busy || ended == LockStep::TimedOut
            || ended == LockStep::Broken)),
        event is Measured ==> (ends(step, event) <==> step == CheckoutStep::Measure),
        event is Ran ==> (ends(step, event) <==> step == CheckoutStep::ReadTree || step
            == CheckoutStep::Clean),
        event is Remembered ==> (ends(step, event) <==> step == CheckoutStep::Remember),
        event is Failed ==> (ends(step, event) <==> step == CheckoutStep::ResolveCode || step
            == CheckoutStep::ResolveExtra || step == CheckoutStep::Combine || step
            == CheckoutStep::Prepare || step == CheckoutStep::ReadTree || step
            == CheckoutStep::Clean),
{
}

} // verus!
