//! What can go wrong on the server's side.

use vstd::prelude::*;

use crate::protocol::{ProtocolError, StreamIdError, StreamIdErrorView};
use crate::text::concat3;

verus! {

/// The reason that an operation of the server failed.
#[derive(Debug)]
pub enum ServerError {
    /// A protocol error.
    Protocol(ProtocolError),
    /// The path is not a git repository.
    NotARepo(String),
    /// The listen socket could not be bound.
    Bind {
        /// The address.
        addr: String,
        /// What the attempt said.
        source: String,
    },
    /// The `pre-receive` hook could not be written.
    InstallHook(String),
    /// Reading or writing failed while a connection was served.
    Io(String),
    /// `git receive-pack` could not be started.
    Spawn(String),
    /// The stream has no `code` ref to check out.
    MissingCodeRef {
        /// The ref.
        ref_name: String,
    },
    /// The stream's `extra` tree could not be read.
    ResolveExtra(String),
    /// The combined tree could not be built.
    BuildTree(String),
    /// A stream id was malformed.
    StreamId(StreamIdError),
    /// The streams could not be listed.
    ListStreams(String),
    /// The refs of a stream could not be deleted.
    ForgetStream(String),
    /// The stale streams could not be found.
    Reap(String),
    /// The worktree or the directory of its state could not be made.
    CreateWorktree(String),
    /// A step of a checkout could not be started.
    RunGit {
        /// The step.
        step: &'static str,
        /// What the attempt said.
        source: String,
    },
    /// A step of a checkout failed.
    Worktree {
        /// The step.
        step: &'static str,
        /// What it said, without the white space around it.
        stderr: String,
    },
    /// Another checkout into the worktree is under way.
    WorktreeBusy {
        /// The worktree.
        worktree: String,
    },
    /// Another checkout into the worktree did not end in time.
    LockTimeout {
        /// The worktree.
        worktree: String,
        /// How long was waited, as it is shown.
        timeout: String,
    },
    /// The lock could not be opened or taken.
    Lock(String),
    /// A task ended before its time.
    Join(String),
}

/// The view of a [`ServerError`].
pub enum ServerErrorView {
    Protocol(Seq<char>),
    NotARepo(Seq<char>),
    Bind { addr: Seq<char>, source: Seq<char> },
    InstallHook(Seq<char>),
    Io(Seq<char>),
    Spawn(Seq<char>),
    MissingCodeRef { ref_name: Seq<char> },
    ResolveExtra(Seq<char>),
    BuildTree(Seq<char>),
    StreamId(StreamIdErrorView),
    ListStreams(Seq<char>),
    ForgetStream(Seq<char>),
    Reap(Seq<char>),
    CreateWorktree(Seq<char>),
    RunGit { step: Seq<char>, source: Seq<char> },
    Worktree { step: Seq<char>, stderr: Seq<char> },
    WorktreeBusy { worktree: Seq<char> },
    LockTimeout { worktree: Seq<char>, timeout: Seq<char> },
    Lock(Seq<char>),
    Join(Seq<char>),
}

impl View for ServerError {
    type V = ServerErrorView;

    open spec fn view(&self) -> ServerErrorView {
        match *self {
            ServerError::Protocol(ProtocolError::Protocol(what)) => ServerErrorView::Protocol(
                what@,
            ),
            ServerError::NotARepo(path) => ServerErrorView::NotARepo(path@),
            ServerError::Bind { addr, source } => ServerErrorView::Bind {
                addr: addr@,
                source: source@,
            },
            ServerError::InstallHook(source) => ServerErrorView::InstallHook(source@),
            ServerError::Io(source) => ServerErrorView::Io(source@),
            ServerError::Spawn(source) => ServerErrorView::Spawn(source@),
            ServerError::MissingCodeRef { ref_name } => ServerErrorView::MissingCodeRef {
                ref_name: ref_name@,
            },
            ServerError::ResolveExtra(source) => ServerErrorView::ResolveExtra(source@),
            ServerError::BuildTree(source) => ServerErrorView::BuildTree(source@),
            ServerError::StreamId(e) => ServerErrorView::StreamId(e@),
            ServerError::ListStreams(source) => ServerErrorView::ListStreams(source@),
            ServerError::ForgetStream(source) => ServerErrorView::ForgetStream(source@),
            ServerError::Reap(source) => ServerErrorView::Reap(source@),
            ServerError::CreateWorktree(source) => ServerErrorView::CreateWorktree(source@),
            ServerError::RunGit { step, source } => ServerErrorView::RunGit {
                step: step@,
                source: source@,
            },
            ServerError::Worktree { step, stderr } => ServerErrorView::Worktree {
                step: step@,
                stderr: stderr@,
            },
            ServerError::WorktreeBusy { worktree } => ServerErrorView::WorktreeBusy {
                worktree: worktree@,
            },
            ServerError::LockTimeout { worktree, timeout } => ServerErrorView::LockTimeout {
                worktree: worktree@,
                timeout: timeout@,
            },
            ServerError::Lock(source) => ServerErrorView::Lock(source@),
            ServerError::Join(what) => ServerErrorView::Join(what@),
        }
    }
}

impl ServerError {
    /// The text of [`ServerError::message`].
    pub open spec fn text(self) -> Seq<char> {
        match self {
            ServerError::Protocol(ProtocolError::Protocol(what)) => "protocol error: "@ + what@,
            ServerError::NotARepo(path) => "`"@ + path@ + "` is not a Git repository"@,
            ServerError::Bind { addr, .. } => "could not bind to `"@ + addr@ + "`"@,
            ServerError::InstallHook(_) => "could not install the receive-pack hook"@,
            ServerError::Io(_) => "I/O error while serving"@,
            ServerError::Spawn(_) => "could not spawn `git receive-pack`"@,
            ServerError::MissingCodeRef { ref_name } => "no `"@ + ref_name@
                + "` to check out; nothing has been synced for this stream yet"@,
            ServerError::ResolveExtra(_) => "could not resolve the `extra` tree"@,
            ServerError::BuildTree(_) => "could not build the combined worktree tree"@,
            ServerError::StreamId(e) => e.text(),
            ServerError::ListStreams(_) => "could not list streams"@,
            ServerError::ForgetStream(_) => "could not forget stream"@,
            ServerError::Reap(_) => "could not reap streams"@,
            ServerError::CreateWorktree(_) => "could not create the worktree directory"@,
            ServerError::RunGit { step, .. } => "could not run `git "@ + step@ + "`"@,
            ServerError::Worktree { step, stderr } => "`git "@ + step@
                + "` failed during worktree update: "@ + stderr@,
            ServerError::WorktreeBusy { worktree } =>
                "another update is already in progress for worktree `"@ + worktree@ + "`"@,
            ServerError::LockTimeout { worktree, timeout } => "timed out after "@ + timeout@
                + " waiting for the lock on worktree `"@ + worktree@ + "`"@,
            ServerError::Lock(_) => "could not acquire the worktree lock"@,
            ServerError::Join(what) => "serve task failed: "@ + what@,
        }
    }

    /// What the error says.
    pub fn message(&self) -> (r: String)
        ensures
            r@ == self.text(),
    {
        match self {
            ServerError::Protocol(e) => e.message(),
            ServerError::NotARepo(path) => concat3("`", path.as_str(), "` is not a Git repository"),
            ServerError::Bind { addr, .. } => concat3("could not bind to `", addr.as_str(), "`"),
            ServerError::InstallHook(_) => "could not install the receive-pack hook".to_owned(),
            ServerError::Io(_) => "I/O error while serving".to_owned(),
            ServerError::Spawn(_) => "could not spawn `git receive-pack`".to_owned(),
            ServerError::MissingCodeRef { ref_name } => concat3(
                "no `",
                ref_name.as_str(),
                "` to check out; nothing has been synced for this stream yet",
            ),
            ServerError::ResolveExtra(_) => "could not resolve the `extra` tree".to_owned(),
            ServerError::BuildTree(_) => "could not build the combined worktree tree".to_owned(),
            ServerError::StreamId(e) => e.message(),
            ServerError::ListStreams(_) => "could not list streams".to_owned(),
            ServerError::ForgetStream(_) => "could not forget stream".to_owned(),
            ServerError::Reap(_) => "could not reap streams".to_owned(),
            ServerError::CreateWorktree(_) => "could not create the worktree directory".to_owned(),
            ServerError::RunGit { step, .. } => concat3("could not run `git ", step, "`"),
            ServerError::Worktree { step, stderr } => {
                let mut out = concat3("`git ", step, "` failed during worktree update: ");
                out.append(stderr.as_str());
                out
            },
            ServerError::WorktreeBusy { worktree } => concat3(
                "another update is already in progress for worktree `",
                worktree.as_str(),
                "`",
            ),
            ServerError::LockTimeout { worktree, timeout } => {
                let mut out = concat3(
                    "timed out after ",
                    timeout.as_str(),
                    " waiting for the lock on worktree `",
                );
                out.append(worktree.as_str());
                out.append("`");
                out
            },
            ServerError::Lock(_) => "could not acquire the worktree lock".to_owned(),
            ServerError::Join(what) => {
                let mut out = "serve task failed: ".to_owned();
                out.append(what.as_str());
                out
            },
        }
    }
}

} // verus!
