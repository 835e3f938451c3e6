//! Pushing encoded state to the server, one `git push` for each chain.
//!
//! A push connects, presents its secret, and only then lets git talk over the
//! connection.

use vstd::prelude::*;

use crate::auth::{
    auth_pkt, behind_opening, framed, is_secret, law_a_preamble_round_trips,
    law_another_secret_is_a_mismatch, opening, preamble_payload, AuthOutcome, Token,
};
use crate::pktline::WireCounts;
use crate::text::{
    concat3, copy_texts, lossy_text, push_signed, push_text, signed_decimal, texts, trim_text,
    trimmed, utf8_lossy,
};

verus! {

/// What the reflog says of an update of a ref that pins a pushed tip.
pub const RETAIN_REFLOG: &'static str = "git-full-send: retain pushed tip";

/// How a push asks git to deltify the objects that it sends. One push has one
/// policy.
#[derive(Debug, Clone, Copy, PartialEq, Eq, Structural)]
pub enum DeltaPolicy {
    /// A changed blob travels as a delta against a base that the server has.
    Thin,
    /// Changed objects travel whole.
    WholeObject,
}

impl Default for DeltaPolicy {
    fn default() -> (r: Self)
        ensures
            r == DeltaPolicy::Thin,
    {
        DeltaPolicy::Thin
    }
}

/// What one push cost on the wire.
#[derive(Debug, Clone, Copy, PartialEq, Eq, Structural)]
pub struct PushWire {
    /// From the client: ref-update commands up to the flush, then the pack.
    pub sent: WireCounts,
    /// From the server: the ref advertisement up to the flush, one pkt-line for
    /// each ref, then the report.
    pub received: WireCounts,
}

impl Default for PushWire {
    fn default() -> (r: Self)
        ensures
            r.sent.total == 0,
            r.received.total == 0,
            r.sent.pre_flush == 0,
            r.received.pre_flush == 0,
            r.sent.pre_flush_pkts == 0,
            r.received.pre_flush_pkts == 0,
            r.sent.post_flush == 0,
            r.received.post_flush == 0,
    {
        PushWire { sent: WireCounts::default(), received: WireCounts::default() }
    }
}

/// The reason that a push failed.
#[derive(Debug)]
pub enum PushError {
    /// There is no git repository at the path or above it.
    OpenRepo {
        /// The path.
        path: String,
        /// What the attempt said.
        source: String,
    },
    /// The repository has no working tree.
    NoWorktree(String),
    /// The server could not be reached.
    Connect {
        /// Its address.
        remote: String,
        /// What the attempt said.
        source: String,
    },
    /// `git push` could not be started.
    Spawn(String),
    /// Reading or writing failed while the push ran.
    Io(String),
    /// `git push` failed.
    PushFailed {
        /// How it exited.
        status: String,
        /// What it said, without the white space around it.
        stderr: String,
    },
    /// The ref that pins the pushed tip could not be updated.
    RetainRef {
        /// The ref.
        ref_name: String,
        /// What the attempt said.
        source: String,
    },
}

/// The view of a [`PushError`].
pub enum PushErrorView {
    OpenRepo { path: Seq<char>, source: Seq<char> },
    NoWorktree(Seq<char>),
    Connect { remote: Seq<char>, source: Seq<char> },
    Spawn(Seq<char>),
    Io(Seq<char>),
    PushFailed { status: Seq<char>, stderr: Seq<char> },
    RetainRef { ref_name: Seq<char>, source: Seq<char> },
}

impl View for PushError {
    type V = PushErrorView;

    open spec fn view(&self) -> PushErrorView {
        match *self {
            PushError::OpenRepo { path, source } => PushErrorView::OpenRepo {
                path: path@,
                source: source@,
            },
            PushError::NoWorktree(path) => PushErrorView::NoWorktree(path@),
            PushError::Connect { remote, source } => PushErrorView::Connect {
                remote: remote@,
                source: source@,
            },
            PushError::Spawn(source) => PushErrorView::Spawn(source@),
            PushError::Io(source) => PushErrorView::Io(source@),
            PushError::PushFailed { status, stderr } => PushErrorView::PushFailed {
                status: status@,
                stderr: stderr@,
            },
            PushError::RetainRef { ref_name, source } => PushErrorView::RetainRef {
                ref_name: ref_name@,
                source: source@,
            },
        }
    }
}

impl PushError {
    /// The text of [`PushError::message`].
    pub open spec fn text(self) -> Seq<char> {
        match self {
            PushError::OpenRepo { path, .. } => "could not open a Git repository at or above `"@
                + path@ + "`"@,
            PushError::NoWorktree(path) => "repository at `"@ + path@ + "` has no working tree"@,
            PushError::Connect { remote, .. } => "could not connect to `"@ + remote@ + "`"@,
            PushError::Spawn(_) => "could not spawn `git push`"@,
            PushError::Io(_) => "I/O error during push"@,
            PushError::PushFailed { status, stderr } => "`git push` failed ("@ + status@ + "): "@
                + stderr@,
            PushError::RetainRef { ref_name, .. } => "could not update `"@ + ref_name@ + "`"@,
        }
    }

    /// What the error says.
    pub fn message(&self) -> (r: String)
        ensures
            r@ == self.text(),
    {
        match self {
            PushError::OpenRepo { path, .. } => concat3(
                "could not open a Git repository at or above `",
                path.as_str(),
                "`",
            ),
            PushError::NoWorktree(path) => concat3(
                "repository at `",
                path.as_str(),
                "` has no working tree",
            ),
            PushError::Connect { remote, .. } => concat3(
                "could not connect to `",
                remote.as_str(),
                "`",
            ),
            PushError::Spawn(_) => "could not spawn `git push`".to_owned(),
            PushError::Io(_) => "I/O error during push".to_owned(),
            PushError::PushFailed { status, stderr } => {
                let mut out = concat3("`git push` failed (", status.as_str(), "): ");
                out.append(stderr.as_str());
                out
            },
            PushError::RetainRef { ref_name, .. } => concat3(
                "could not update `",
                ref_name.as_str(),
                "`",
            ),
        }
    }
}

/// The refspec that overwrites a ref of the server with the ref of that name.
pub open spec fn forced(name: Seq<char>) -> Seq<char> {
    "+"@ + name + ":"@ + name
}

/// The options that stand for a policy, from the command on.
pub open spec fn policy_args(policy: DeltaPolicy) -> Seq<Seq<char>> {
    match policy {
        DeltaPolicy::Thin => seq!["push"@, "--thin"@],
        DeltaPolicy::WholeObject => seq!["-c"@, "pack.window=0"@, "push"@, "--no-thin"@],
    }
}

/// The arguments of `git` for a push over two file descriptors.
pub open spec fn push_args_of(
    names: Seq<Seq<char>>,
    policy: DeltaPolicy,
    in_fd: int,
    out_fd: int,
) -> Seq<Seq<char>> {
    seq!["-c"@, "protocol.fd.allow=always"@] + policy_args(policy) + seq![
        "fd::"@ + signed_decimal(in_fd) + ","@ + signed_decimal(out_fd),
    ] + Seq::new(names.len(), |i: int| forced(names[i]))
}

/// The arguments of `git` that push `ref_names` in one exchange, over the file
/// descriptors that it reads from and writes to.
///
/// Every ref is forced: an encoded state does not follow on the one before it.
pub fn push_args(
    ref_names: &Vec<String>,
    policy: DeltaPolicy,
    in_fd: i32,
    out_fd: i32,
) -> (r: Vec<String>)
    ensures
        texts(r@) == push_args_of(texts(ref_names@), policy, in_fd as int, out_fd as int),
{
    let mut out: Vec<String> = Vec::new();
    push_text(&mut out, "-c");
    push_text(&mut out, "protocol.fd.allow=always");
    match policy {
        DeltaPolicy::Thin => {
            push_text(&mut out, "push");
            push_text(&mut out, "--thin");
        },
        DeltaPolicy::WholeObject => {
            push_text(&mut out, "-c");
            push_text(&mut out, "pack.window=0");
            push_text(&mut out, "push");
            push_text(&mut out, "--no-thin");
        },
    }
    let mut transport = "fd::".to_owned();
    push_signed(&mut transport, in_fd as i64);
    transport.append(",");
    push_signed(&mut transport, out_fd as i64);
    push_text(&mut out, transport.as_str());
    let ghost front = texts(out@);
    proof {
        assert(front =~= seq!["-c"@, "protocol.fd.allow=always"@] + policy_args(policy) + seq![
            "fd::"@ + signed_decimal(in_fd as int) + ","@ + signed_decimal(out_fd as int),
        ]);
    }
    let mut i: usize = 0;
    while i < ref_names.len()
        invariant
            i <= ref_names@.len(),
            texts(out@) == front + Seq::new(i as nat, |k: int| forced(texts(ref_names@)[k])),
        decreases ref_names@.len() - i,
    {
        let mut spec = concat3("+", ref_names[i].as_str(), ":");
        spec.append(ref_names[i].as_str());
        push_text(&mut out, spec.as_str());
        proof {
            assert(texts(out@) =~= front + Seq::new(
                (i + 1) as nat,
                |k: int| forced(texts(ref_names@)[k]),
            ));
        }
        i += 1;
    }
    proof {
        assert(texts(out@) =~= push_args_of(
            texts(ref_names@),
            policy,
            in_fd as int,
            out_fd as int,
        ));
    }
    out
}

/// The result of a push, by how `git` exited and what passed on the wire.
pub fn push_result(
    success: bool,
    status: &str,
    stderr: &str,
    sent: WireCounts,
    received: WireCounts,
) -> (r: Result<PushWire, PushError>)
    ensures
        match r {
            Ok(wire) => success && wire == (PushWire { sent, received }),
            Err(PushError::PushFailed { status: how, stderr: said }) => !success && how@ == status@
                && said@ == trimmed(stderr@),
            Err(_) => false,
        },
{
    if success {
        Ok(PushWire { sent, received })
    } else {
        Err(PushError::PushFailed { status: status.to_owned(), stderr: trim_text(stderr) })
    }
}

/// As [`push_result`], on what `git` said as it came.
pub fn push_outcome(
    success: bool,
    status: &str,
    stderr: &[u8],
    sent: WireCounts,
    received: WireCounts,
) -> (r: Result<PushWire, PushError>)
    ensures
        match r {
            Ok(wire) => success && wire == (PushWire { sent, received }),
            Err(PushError::PushFailed { status: how, stderr: said }) => !success && how@ == status@
                && said@ == trimmed(utf8_lossy(stderr@)),
            Err(_) => false,
        },
{
    let said = lossy_text(stderr);
    push_result(success, status, said.as_str(), sent, received)
}

/// What a client writes before it reads: its preamble, if it has a secret.
pub open spec fn opening_of(secret: Option<Seq<char>>) -> Seq<u8> {
    match secret {
        Some(secret) => framed(preamble_payload(secret)),
        None => Seq::empty(),
    }
}

/// Where a push is.
#[derive(Debug, Clone, Copy, PartialEq, Eq, Structural)]
pub enum PushStep {
    /// The server is to be connected to.
    Connect,
    /// The preamble is to be sent.
    Open,
    /// Descriptors are to be reserved for git to talk over.
    Reserve,
    /// `git push` is to be run.
    Run,
    /// The push is done.
    Done,
    /// A step failed.
    Failed,
}

/// What a push does next.
#[derive(Debug)]
pub enum PushAction {
    /// Connect to the server.
    Connect {
        /// Its address.
        remote: String,
    },
    /// Send these bytes over the connection.
    Send {
        /// The bytes.
        bytes: Vec<u8>,
    },
    /// Reserve two descriptors that lead to the connection.
    Reserve,
    /// Run `git` with these arguments, and leave the connection to it.
    Run {
        /// The arguments.
        args: Vec<String>,
    },
    /// Nothing: the push is done.
    Finish,
    /// Nothing: the push failed.
    Stop,
}

/// How a step of a push ended.
#[derive(Debug)]
pub enum PushEvent {
    /// The connection stands.
    Connected,
    /// The bytes were sent.
    Sent,
    /// The descriptors were reserved.
    Reserved {
        /// The one that git reads from.
        in_fd: i32,
        /// The one that git writes to.
        out_fd: i32,
    },
    /// `git push` ended.
    Exited {
        /// Whether it succeeded.
        success: bool,
        /// How it exited.
        status: String,
        /// What it said.
        stderr: Vec<u8>,
        /// What it sent.
        sent: WireCounts,
        /// What it received.
        received: WireCounts,
    },
    /// Passing on what `git push` writes and reads broke off; what the attempt
    /// said.
    Broken(String),
    /// The step could not be performed; what the attempt said.
    Failed(String),
}

/// A push at some step.
#[verifier::ext_equal]
pub struct PushView {
    /// The server.
    pub remote: Seq<char>,
    /// The refs that are pushed.
    pub names: Seq<Seq<char>>,
    /// The policy.
    pub policy: DeltaPolicy,
    /// The secret that is presented, if there is one.
    pub secret: Option<Seq<char>>,
    /// What was written to the connection ahead of git.
    pub written: Seq<u8>,
    /// Where the push is.
    pub step: PushStep,
    /// The descriptors that git reads from and writes to.
    pub fds: (int, int),
    /// What crossed the wire, once the push is done.
    pub wire: Option<PushWire>,
    /// The error that ended the push.
    pub failure: Option<PushErrorView>,
}

/// The error of a `git push` that failed.
pub open spec fn exit_failure(status: Seq<char>, stderr: Seq<u8>) -> PushErrorView {
    PushErrorView::PushFailed { status, stderr: trimmed(utf8_lossy(stderr)) }
}

/// The error of a step that could not be performed.
pub open spec fn attempt_failure(
    step: PushStep,
    remote: Seq<char>,
    source: Seq<char>,
) -> PushErrorView {
    match step {
        PushStep::Connect => PushErrorView::Connect { remote, source },
        PushStep::Run => PushErrorView::Spawn(source),
        _ => PushErrorView::Io(source),
    }
}

impl PushView {
    /// A push that has not begun.
    pub open spec fn fresh(
        remote: Seq<char>,
        names: Seq<Seq<char>>,
        policy: DeltaPolicy,
        secret: Option<Seq<char>>,
    ) -> PushView {
        PushView {
            remote,
            names,
            policy,
            secret,
            written: Seq::empty(),
            step: PushStep::Connect,
            fds: (0, 0),
            wire: None,
            failure: None,
        }
    }

    /// The push that failed with this error.
    pub open spec fn failed(self, error: PushErrorView) -> PushView {
        PushView { step: PushStep::Failed, failure: Some(error), ..self }
    }

    /// Whether a step can end so.
    pub open spec fn admits(self, event: PushEvent) -> bool {
        match self.step {
            PushStep::Connect => event is Connected || event is Failed,
            PushStep::Open => event is Sent || event is Failed,
            PushStep::Reserve => event is Reserved || event is Failed,
            PushStep::Run => event is Exited || event is Broken || event is Failed,
            PushStep::Done => false,
            PushStep::Failed => false,
        }
    }

    /// The push behind a step that ended so.
    pub open spec fn after(self, event: PushEvent) -> PushView {
        match event {
            PushEvent::Connected => PushView {
                step: if self.secret is Some {
                    PushStep::Open
                } else {
                    PushStep::Reserve
                },
                ..self
            },
            PushEvent::Sent => PushView {
                written: self.written + opening_of(self.secret),
                step: PushStep::Reserve,
                ..self
            },
            PushEvent::Reserved { in_fd, out_fd } => PushView {
                fds: (in_fd as int, out_fd as int),
                step: PushStep::Run,
                ..self
            },
            PushEvent::Exited { success, status, stderr, sent, received } => if success {
                PushView {
                    step: PushStep::Done,
                    wire: Some(PushWire { sent, received }),
                    ..self
                }
            } else {
                self.failed(exit_failure(status@, stderr@))
            },
            PushEvent::Broken(source) => self.failed(PushErrorView::Io(source@)),
            PushEvent::Failed(source) => self.failed(
                attempt_failure(self.step, self.remote, source@),
            ),
        }
    }
}

/// The push behind steps that ended so one after the other, where each can.
pub open spec fn push_run(start: PushView, events: Seq<PushEvent>) -> Option<PushView>
    decreases events.len(),
{
    if events.len() == 0 {
        Some(start)
    } else {
        match push_run(start, events.drop_last()) {
            Some(push) => if push.admits(events.last()) {
                Some(push.after(events.last()))
            } else {
                None
            },
            None => None,
        }
    }
}

/// A push of refs in one exchange.
pub struct Push {
    remote: String,
    names: Vec<String>,
    policy: DeltaPolicy,
    auth: Option<Token>,
    written: Ghost<Seq<u8>>,
    step: PushStep,
    in_fd: i32,
    out_fd: i32,
    wire: Option<PushWire>,
    failure: Option<PushError>,
}

/// The secret that a token holds, if there is one.
pub open spec fn secret_in(auth: Option<Token>) -> Option<Seq<char>> {
    match auth {
        Some(token) => Some(token@),
        None => None,
    }
}

impl View for Push {
    type V = PushView;

    closed spec fn view(&self) -> PushView {
        PushView {
            remote: self.remote@,
            names: texts(self.names@),
            policy: self.policy,
            secret: secret_in(self.auth),
            written: self.written@,
            step: self.step,
            fds: (self.in_fd as int, self.out_fd as int),
            wire: self.wire,
            failure: match self.failure {
                Some(e) => Some(e@),
                None => None,
            },
        }
    }
}

impl Push {
    #[verifier::type_invariant]
    spec fn well_formed(self) -> bool {
        &&& self.step is Open ==> self.auth is Some
        &&& self.step is Done <==> self.wire is Some
        &&& self.step is Failed <==> self.failure is Some
    }

    /// A push that has not begun.
    pub fn new(
        remote: &str,
        ref_names: &Vec<String>,
        policy: DeltaPolicy,
        auth: Option<&Token>,
    ) -> (r: Self)
        ensures
            r@ == PushView::fresh(
                remote@,
                texts(ref_names@),
                policy,
                match auth {
                    Some(token) => Some(token@),
                    None => None,
                },
            ),
    {
        Push {
            remote: remote.to_owned(),
            names: copy_texts(ref_names),
            policy,
            auth: match auth {
                Some(token) => Some(token.clone()),
                None => None,
            },
            written: Ghost(Seq::empty()),
            step: PushStep::Connect,
            in_fd: 0,
            out_fd: 0,
            wire: None,
            failure: None,
        }
    }

    /// What is done next.
    pub fn action(&self) -> (r: PushAction)
        ensures
            match self@.step {
                PushStep::Connect => r matches PushAction::Connect { remote } && remote@
                    == self@.remote,
                PushStep::Open => r matches PushAction::Send { bytes } && bytes@ == opening_of(
                    self@.secret,
                ),
                PushStep::Reserve => r is Reserve,
                PushStep::Run => r matches PushAction::Run { args } && texts(args@) == push_args_of(
                    self@.names,
                    self@.policy,
                    self@.fds.0,
                    self@.fds.1,
                ),
                PushStep::Done => r is Finish,
                PushStep::Failed => r is Stop,
            },
    {
        proof {
            use_type_invariant(self);
        }
        match self.step {
            PushStep::Connect => PushAction::Connect { remote: self.remote.clone() },
            PushStep::Open => match &self.auth {
                Some(token) => PushAction::Send { bytes: auth_pkt(token) },
                None => PushAction::Stop,
            },
            PushStep::Reserve => PushAction::Reserve,
            PushStep::Run => PushAction::Run {
                args: push_args(&self.names, self.policy, self.in_fd, self.out_fd),
            },
            PushStep::Done => PushAction::Finish,
            PushStep::Failed => PushAction::Stop,
        }
    }

    /// The push behind a step that ended so.
    pub fn on_event(self, event: PushEvent) -> (r: Self)
        requires
            self@.admits(event),
        ensures
            r@ == self@.after(event),
    {
        proof {
            use_type_invariant(&self);
        }
        let ghost before = self@;
        match event {
            PushEvent::Connected => {
                let step = if self.auth.is_some() {
                    PushStep::Open
                } else {
                    PushStep::Reserve
                };
                Push { step, ..self }
            },
            PushEvent::Sent => Push {
                written: Ghost(before.written + opening_of(before.secret)),
                step: PushStep::Reserve,
                ..self
            },
            PushEvent::Reserved { in_fd, out_fd } => Push {
                in_fd,
                out_fd,
                step: PushStep::Run,
                ..self
            },
            PushEvent::Exited { success, status, stderr, sent, received } => match push_outcome(
                success,
                status.as_str(),
                stderr.as_slice(),
                sent,
                received,
            ) {
                Ok(wire) => Push { step: PushStep::Done, wire: Some(wire), ..self },
                Err(e) => Push { step: PushStep::Failed, failure: Some(e), ..self },
            },
            PushEvent::Broken(source) => Push {
                step: PushStep::Failed,
                failure: Some(PushError::Io(source)),
                ..self
            },
            PushEvent::Failed(source) => {
                let e = match self.step {
                    PushStep::Connect => PushError::Connect { remote: self.remote.clone(), source },
                    PushStep::Run => PushError::Spawn(source),
                    _ => PushError::Io(source),
                };
                Push { step: PushStep::Failed, failure: Some(e), ..self }
            },
        }
    }

    /// What crossed the wire, or the error that ended the push, once it is over.
    pub fn outcome(self) -> (r: Option<Result<PushWire, PushError>>)
        ensures
            match r {
                Some(Ok(wire)) => self@.step is Done && self@.wire == Some(wire),
                Some(Err(e)) => self@.step is Failed && self@.failure == Some(e@),
                None => !(self@.step is Done || self@.step is Failed),
            },
    {
        proof {
            use_type_invariant(&self);
        }
        let Push { wire, failure, .. } = self;
        match wire {
            Some(wire) => Some(Ok(wire)),
            None => match failure {
                Some(e) => Some(Err(e)),
                None => None,
            },
        }
    }
}

proof fn lemma_push_run(
    remote: Seq<char>,
    names: Seq<Seq<char>>,
    policy: DeltaPolicy,
    secret: Option<Seq<char>>,
    events: Seq<PushEvent>,
)
    ensures
        push_run(PushView::fresh(remote, names, policy, secret), events) matches Some(push) ==> {
            &&& push.secret == secret
            &&& push.step is Connect || push.step is Open ==> push.written.len() == 0
            &&& push.step is Reserve || push.step is Run || push.step is Done ==> push.written
                == opening_of(secret)
        },
    decreases events.len(),
{
    if events.len() > 0 {
        lemma_push_run(remote, names, policy, secret, events.drop_last());
        let start = PushView::fresh(remote, names, policy, secret);
        if let Some(push) = push_run(start, events.drop_last()) {
            if push.written.len() == 0 {
                assert(push.written =~= Seq::empty());
                assert(push.written + opening_of(secret) =~= opening_of(secret));
            }
        }
    }
}

/// Git talks over a connection only once the secret was presented on it, and
/// nothing else is written ahead of git.
pub proof fn law_git_talks_only_behind_the_preamble(
    remote: Seq<char>,
    names: Seq<Seq<char>>,
    policy: DeltaPolicy,
    secret: Option<Seq<char>>,
    events: Seq<PushEvent>,
)
    ensures
        push_run(PushView::fresh(remote, names, policy, secret), events) matches Some(push) ==> (
        push.step is Run || push.step is Done) ==> push.written == opening_of(secret),
{
    lemma_push_run(remote, names, policy, secret, events);
}

/// What a push writes ahead of git is accepted exactly by the servers that expect
/// its secret, and leaves all that git writes to git.
pub proof fn law_a_push_is_accepted_where_its_secret_is_expected(
    secret: Seq<char>,
    expected: Seq<char>,
    rest: Seq<u8>,
)
    requires
        is_secret(secret),
    ensures
        opening(opening_of(Some(secret)) + rest, expected) == AuthOutcome::Accepted <==> secret
            == expected,
        behind_opening(opening_of(Some(secret)) + rest) == rest,
{
    law_a_preamble_round_trips(secret, rest);
    if secret != expected {
        law_another_secret_is_a_mismatch(secret, expected, rest);
    }
}

/// A push names each ref on both sides and overwrites what the server has: the
/// refs come last, in order, each with a plus before it.
pub proof fn law_each_ref_is_overwritten_by_itself(
    names: Seq<Seq<char>>,
    policy: DeltaPolicy,
    in_fd: int,
    out_fd: int,
    i: int,
)
    requires
        0 <= i < names.len(),
    ensures
        ({
            let args = push_args_of(names, policy, in_fd, out_fd);
            let first = args.len() - names.len();
            &&& args[first + i] == "+"@ + names[i] + ":"@ + names[i]
            &&& args[first - 1] == "fd::"@ + signed_decimal(in_fd) + ","@ + signed_decimal(out_fd)
        }),
{
    let args = push_args_of(names, policy, in_fd, out_fd);
    let first = args.len() - names.len();
    assert(args[first + i] == forced(names[i]));
}

/// A push of thin deltas and one of whole objects differ in how git is told to
/// pack, and in nothing else: the latter looks for no deltas and sends no thin
/// pack.
pub proof fn law_whole_objects_are_sent_without_deltas(
    names: Seq<Seq<char>>,
    in_fd: int,
    out_fd: int,
)
    ensures
        ({
            let thin = push_args_of(names, DeltaPolicy::Thin, in_fd, out_fd);
            let whole = push_args_of(names, DeltaPolicy::WholeObject, in_fd, out_fd);
            &&& thin.take(4) == seq!["-c"@, "protocol.fd.allow=always"@, "push"@, "--thin"@]
            &&& whole.take(6) == seq![
                "-c"@,
                "protocol.fd.allow=always"@,
                "-c"@,
                "pack.window=0"@,
                "push"@,
                "--no-thin"@,
            ]
            &&& thin.skip(4) == whole.skip(6)
        }),
{
    let thin = push_args_of(names, DeltaPolicy::Thin, in_fd, out_fd);
    let whole = push_args_of(names, DeltaPolicy::WholeObject, in_fd, out_fd);
    assert(thin.take(4) =~= seq!["-c"@, "protocol.fd.allow=always"@, "push"@, "--thin"@]);
    assert(whole.take(6) =~= seq![
        "-c"@,
        "protocol.fd.allow=always"@,
        "-c"@,
        "pack.window=0"@,
        "push"@,
        "--no-thin"@,
    ]);
    assert(thin.skip(4) =~= whole.skip(6));
}

/// A push connects, sends its preamble where it has a secret, reserves the pipes
/// of git, and runs git on those; it is done where git succeeds, with what crossed
/// the wire then.
pub proof fn law_a_push_goes_step_by_step(
    start: PushView,
    in_fd: i32,
    out_fd: i32,
    status: String,
    stderr: Vec<u8>,
    sent: WireCounts,
    received: WireCounts,
)
    requires
        start.step == PushStep::Connect,
        start.written.len() == 0,
    ensures
        ({
            let events = seq![PushEvent::Connected] + (if start.secret is Some {
                seq![PushEvent::Sent]
            } else {
                Seq::empty()
            }) + seq![
                PushEvent::Reserved { in_fd, out_fd },
                PushEvent::Exited { success: true, status, stderr, sent, received },
            ];
            &&& push_run(start, events) matches Some(push) && push.step == PushStep::Done
                && push.wire == Some(PushWire { sent, received }) && push.fds == (
                in_fd as int,
                out_fd as int,
            ) && push.names == start.names && push.policy == start.policy && push.remote
                == start.remote && push.failure == start.failure
        }),
{
    let a = PushEvent::Connected;
    let b = PushEvent::Sent;
    let c = PushEvent::Reserved { in_fd, out_fd };
    let d = PushEvent::Exited { success: true, status, stderr, sent, received };
    assert(push_run(start, Seq::empty()) == Some(start));
    assert(seq![a].drop_last() =~= Seq::<PushEvent>::empty());
    let one = start.after(a);
    assert(push_run(start, seq![a]) == Some(one));
    if start.secret is Some {
        assert(seq![a, b].drop_last() =~= seq![a]);
        let two = one.after(b);
        assert(push_run(start, seq![a, b]) == Some(two));
        assert(seq![a, b, c].drop_last() =~= seq![a, b]);
        let three = two.after(c);
        assert(push_run(start, seq![a, b, c]) == Some(three));
        assert(seq![a, b, c, d].drop_last() =~= seq![a, b, c]);
        assert(push_run(start, seq![a, b, c, d]) == Some(three.after(d)));
        assert(seq![a] + seq![b] + seq![c, d] =~= seq![a, b, c, d]);
    } else {
        assert(seq![a, c].drop_last() =~= seq![a]);
        let two = one.after(c);
        assert(push_run(start, seq![a, c]) == Some(two));
        assert(seq![a, c, d].drop_last() =~= seq![a, c]);
        assert(push_run(start, seq![a, c, d]) == Some(two.after(d)));
        assert(seq![a] + Seq::<PushEvent>::empty() + seq![c, d] =~= seq![a, c, d]);
    }
}

/// A push that does not get through fails, and says why: that the server was not
/// reached, that git could not be run, that the connection broke, or how git
/// exited and what it said, without the white space around it.
pub proof fn law_a_failed_push_says_why(
    push: PushView,
    said: String,
    status: String,
    stderr: Vec<u8>,
    sent: WireCounts,
    received: WireCounts,
)
    ensures
        push.after(PushEvent::Failed(said)).step == PushStep::Failed,
        push.after(PushEvent::Broken(said)).step == PushStep::Failed,
        push.after(PushEvent::Broken(said)).failure == Some(PushErrorView::Io(said@)),
        push.after(PushEvent::Failed(said)).failure == Some(
            if push.step == PushStep::Connect {
                PushErrorView::Connect { remote: push.remote, source: said@ }
            } else if push.step == PushStep::Run {
                PushErrorView::Spawn(said@)
            } else {
                PushErrorView::Io(said@)
            },
        ),
        ({
            let exit = PushEvent::Exited { success: false, status, stderr, sent, received };
            &&& push.after(exit).step == PushStep::Failed
            &&& push.after(exit).wire == push.wire
            &&& push.after(exit).failure == Some(
                PushErrorView::PushFailed {
                    status: status@,
                    stderr: trimmed(utf8_lossy(stderr@)),
                },
            )
        }),
{
}

/// A step of a push ends in the answer to what it asked for, and in no other, or
/// fails.
pub proof fn law_a_step_of_a_push_ends_in_its_own_answer(push: PushView, event: PushEvent)
    ensures
        event is Connected ==> (push.admits(event) <==> push.step == PushStep::Connect),
        event is Sent ==> (push.admits(event) <==> push.step == PushStep::Open),
        event is Reserved ==> (push.admits(event) <==> push.step == PushStep::Reserve),
        event is Exited || event is Broken ==> (push.admits(event) <==> push.step
            == PushStep::Run),
        event is Failed ==> (push.admits(event) <==> push.step == PushStep::Connect || push.step
            == PushStep::Open || push.step == PushStep::Reserve || push.step == PushStep::Run),
{
}

} // verus!
