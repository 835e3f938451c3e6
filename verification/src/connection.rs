//! The steps of a connection: its preamble is read where a secret is asked for,
//! and then `git receive-pack` serves it, or it is refused.
//!
//! Nothing is spawned for a connection whose preamble was not accepted, and
//! nothing behind the preamble is read: the rest is git's.

use vstd::prelude::*;

use crate::auth::{
    behind_opening, judged, lemma_prefix_len, opening, preamble_len, AuthOutcome,
};
use crate::listen::{
    law_only_failed_pushes_are_worth_a_warning, level_of, log_level, names_a_ref, receive_args,
    receive_args_of, received, refusal_bytes, refusal_line, refusal_record, says_refused,
    Admission, Auth, Exchange, LogLevel, ReceiveRecord, RecordView,
};
use crate::pktline::WireCounts;
use crate::server::{ServerError, ServerErrorView};
use crate::text::texts;

verus! {

/// Where a connection is.
#[derive(Debug, Clone, Copy, PartialEq, Eq, Structural)]
pub enum ConnectionStep {
    /// The header of its preamble is to be read.
    Header,
    /// So many bytes of its preamble are to be read.
    Payload(usize),
    /// `receive-pack` is to serve it.
    Serve,
    /// It is to be refused.
    Refuse(AuthOutcome),
    /// It is over.
    Over,
    /// A step failed.
    Failed,
}

/// What is done with a connection next.
#[derive(Debug)]
pub enum ConnectionAction {
    /// Read four bytes.
    ReadHeader,
    /// Read so many bytes.
    ReadPayload(usize),
    /// Run `git` with these arguments, and the repository behind them, on the
    /// connection.
    Serve {
        /// The arguments.
        args: Vec<String>,
    },
    /// Send these bytes and close the connection.
    Refuse {
        /// The bytes.
        bytes: Vec<u8>,
    },
    /// Nothing: it is over.
    Finish,
    /// Nothing: it failed.
    Stop,
}

/// How a step ended.
#[derive(Debug)]
pub enum ConnectionEvent {
    /// This came of the header in time: all of it, or what stood before it broke
    /// off.
    Header(Vec<u8>),
    /// The payload was read, or was not in time.
    Payload(Option<Vec<u8>>),
    /// `receive-pack` served the connection.
    Served {
        /// Its exit code, if it exited with one.
        exit_code: Option<i32>,
        /// The signal that killed it, if one did.
        signal: Option<i32>,
        /// What the client sent.
        inbound: WireCounts,
        /// What the server sent.
        outbound: WireCounts,
        /// What the hook's file holds, if it could be read.
        accepted: Option<String>,
        /// What the process printed.
        stderr: String,
    },
    /// The refusal was sent, as far as the client took it.
    Refused,
    /// `receive-pack` could not be started; what the attempt said.
    NotSpawned(String),
    /// Serving the connection broke off; what the attempt said.
    Broken(String),
}

/// The view of a [`ConnectionEvent`].
pub enum Happening {
    Header(Seq<u8>),
    Payload(Option<Seq<u8>>),
    Served(Exchange),
    Refused,
    NotSpawned(Seq<char>),
    Broken(Seq<char>),
}

impl View for ConnectionEvent {
    type V = Happening;

    open spec fn view(&self) -> Happening {
        match *self {
            ConnectionEvent::Header(header) => Happening::Header(header@),
            ConnectionEvent::Payload(payload) => Happening::Payload(
                match payload {
                    Some(bytes) => Some(bytes@),
                    None => None,
                },
            ),
            ConnectionEvent::Served { exit_code, signal, inbound, outbound, accepted, stderr } =>
                Happening::Served(
                Exchange {
                    exit_code,
                    signal,
                    inbound,
                    outbound,
                    accepted: match accepted {
                        Some(contents) => Some(contents@),
                        None => None,
                    },
                    stderr: stderr@,
                },
            ),
            ConnectionEvent::Refused => Happening::Refused,
            ConnectionEvent::NotSpawned(source) => Happening::NotSpawned(source@),
            ConnectionEvent::Broken(source) => Happening::Broken(source@),
        }
    }
}

/// A connection at some step.
#[verifier::ext_equal]
pub struct ConnectionView {
    /// The secret that is asked for, if one is.
    pub secret: Option<Seq<char>>,
    /// The directory of the hooks that serve it.
    pub hooks: Seq<char>,
    /// What was read of it.
    pub read: Seq<u8>,
    /// Where it is.
    pub step: ConnectionStep,
    /// Its record, once it is over.
    pub record: Option<RecordView>,
    /// How loudly it is logged, once it is over.
    pub level: Option<LogLevel>,
    /// The error that ended it.
    pub failure: Option<ServerErrorView>,
}

/// The step behind what came of a header.
pub open spec fn behind_header(header: Seq<u8>) -> ConnectionStep {
    if header.len() == 0 {
        ConnectionStep::Refuse(AuthOutcome::Absent)
    } else if header.len() < 4 {
        ConnectionStep::Refuse(AuthOutcome::Malformed)
    } else {
        match preamble_len(header) {
            Some(n) => ConnectionStep::Payload((n - 4) as usize),
            None => ConnectionStep::Refuse(AuthOutcome::Malformed),
        }
    }
}

/// The step behind a payload.
pub open spec fn behind_payload(payload: Option<Seq<u8>>, secret: Seq<char>) -> ConnectionStep {
    match payload {
        None => ConnectionStep::Refuse(AuthOutcome::Malformed),
        Some(p) => if judged(p, secret) == AuthOutcome::Accepted {
            ConnectionStep::Serve
        } else {
            ConnectionStep::Refuse(judged(p, secret))
        },
    }
}

/// What was read once these bytes were, if any.
pub open spec fn also_read(read: Seq<u8>, bytes: Option<Seq<u8>>) -> Seq<u8> {
    match bytes {
        Some(more) => read + more,
        None => read,
    }
}

impl ConnectionView {
    /// A connection of which nothing was read.
    pub open spec fn fresh(secret: Option<Seq<char>>, hooks: Seq<char>) -> ConnectionView {
        ConnectionView {
            secret,
            hooks,
            read: Seq::empty(),
            step: if secret is Some {
                ConnectionStep::Header
            } else {
                ConnectionStep::Serve
            },
            record: None,
            level: None,
            failure: None,
        }
    }

    /// Whether git is to serve it, or has served it.
    pub open spec fn goes_to_git(self) -> bool {
        ||| self.step is Serve
        ||| self.step is Over && self.record->0.auth_failure is None
    }

    /// Whether a step can end so.
    pub open spec fn admits(self, event: Happening) -> bool {
        match self.step {
            ConnectionStep::Header => event matches Happening::Header(header) && header.len() <= 4,
            ConnectionStep::Payload(n) => event matches Happening::Payload(payload) && (
            payload matches Some(p) ==> p.len() == n),
            ConnectionStep::Serve => event is Served || event is NotSpawned || event is Broken,
            ConnectionStep::Refuse(_) => event is Refused,
            ConnectionStep::Over => false,
            ConnectionStep::Failed => false,
        }
    }

    /// The connection behind a step that ended so.
    pub open spec fn after(self, event: Happening) -> ConnectionView {
        match event {
            Happening::Header(header) => ConnectionView {
                read: self.read + header,
                step: behind_header(header),
                ..self
            },
            Happening::Payload(payload) => ConnectionView {
                read: also_read(self.read, payload),
                step: behind_payload(payload, self.secret->0),
                ..self
            },
            Happening::Served(exchange) => ConnectionView {
                step: ConnectionStep::Over,
                record: Some(exchange.record()),
                level: Some(level_of(exchange.outcome())),
                ..self
            },
            Happening::Refused => ConnectionView {
                step: ConnectionStep::Over,
                record: Some(refusal_record(self.step->Refuse_0)),
                level: Some(LogLevel::Warn),
                ..self
            },
            Happening::NotSpawned(source) => ConnectionView {
                step: ConnectionStep::Failed,
                failure: Some(ServerErrorView::Spawn(source)),
                ..self
            },
            Happening::Broken(source) => ConnectionView {
                step: ConnectionStep::Failed,
                failure: Some(ServerErrorView::Io(source)),
                ..self
            },
        }
    }
}

/// The connection behind steps that ended so one after the other, where each can.
pub open spec fn connection_run(start: ConnectionView, events: Seq<Happening>) -> Option<
    ConnectionView,
>
    decreases events.len(),
{
    if events.len() == 0 {
        Some(start)
    } else {
        match connection_run(start, events.drop_last()) {
            Some(c) => if c.admits(events.last()) {
                Some(c.after(events.last()))
            } else {
                None
            },
            None => None,
        }
    }
}

/// A connection that is over: its record, and how loudly it is logged.
pub struct Ended {
    /// The record.
    pub record: ReceiveRecord,
    /// How loudly it is logged.
    pub level: LogLevel,
}

/// A connection as it is served.
pub struct Connection {
    auth: Auth,
    hooks: String,
    read: Ghost<Seq<u8>>,
    step: ConnectionStep,
    ended: Option<Ended>,
    failure: Option<ServerError>,
}

/// The secret that is asked for, if one is.
pub open spec fn secret_of(auth: Auth) -> Option<Seq<char>> {
    match auth {
        Auth::Anonymous => None,
        Auth::Token(token) => Some(token@),
    }
}

impl View for Connection {
    type V = ConnectionView;

    closed spec fn view(&self) -> ConnectionView {
        ConnectionView {
            secret: secret_of(self.auth),
            hooks: self.hooks@,
            read: self.read@,
            step: self.step,
            record: match self.ended {
                Some(ended) => Some(ended.record@),
                None => None,
            },
            level: match self.ended {
                Some(ended) => Some(ended.level),
                None => None,
            },
            failure: match self.failure {
                Some(e) => Some(e@),
                None => None,
            },
        }
    }
}

/// The step that an admission stands for.
pub open spec fn step_of(admission: Admission) -> ConnectionStep {
    match admission {
        Admission::ReadHeader => ConnectionStep::Header,
        Admission::ReadPayload(n) => ConnectionStep::Payload(n),
        Admission::Serve => ConnectionStep::Serve,
        Admission::Refuse(outcome) => ConnectionStep::Refuse(outcome),
    }
}

fn as_step(admission: Admission) -> (r: ConnectionStep)
    ensures
        r == step_of(admission),
{
    match admission {
        Admission::ReadHeader => ConnectionStep::Header,
        Admission::ReadPayload(n) => ConnectionStep::Payload(n),
        Admission::Serve => ConnectionStep::Serve,
        Admission::Refuse(outcome) => ConnectionStep::Refuse(outcome),
    }
}

impl Connection {
    #[verifier::type_invariant]
    spec fn well_formed(self) -> bool {
        &&& (self.step is Header || self.step is Payload) ==> self.auth is Token
        &&& self.step matches ConnectionStep::Refuse(outcome) ==> outcome != AuthOutcome::Accepted
        &&& self.step is Over <==> self.ended is Some
        &&& self.step is Failed <==> self.failure is Some
    }

    /// A connection of which nothing was read.
    pub fn new(auth: &Auth, hooks_dir: &str) -> (r: Self)
        ensures
            r@ == ConnectionView::fresh(secret_of(*auth), hooks_dir@),
    {
        let auth = match auth {
            Auth::Anonymous => Auth::Anonymous,
            Auth::Token(token) => Auth::Token(token.clone()),
        };
        let step = as_step(auth.start());
        Connection {
            auth,
            hooks: hooks_dir.to_owned(),
            read: Ghost(Seq::empty()),
            step,
            ended: None,
            failure: None,
        }
    }

    /// What is done next.
    pub fn action(&self) -> (r: ConnectionAction)
        ensures
            match self@.step {
                ConnectionStep::Header => r is ReadHeader,
                ConnectionStep::Payload(n) => r == ConnectionAction::ReadPayload(n),
                ConnectionStep::Serve => r matches ConnectionAction::Serve { args } && texts(args@)
                    == receive_args_of(self@.hooks),
                ConnectionStep::Refuse(_) => r matches ConnectionAction::Refuse { bytes } && bytes@
                    == refusal_line(),
                ConnectionStep::Over => r is Finish,
                ConnectionStep::Failed => r is Stop,
            },
    {
        proof {
            use_type_invariant(self);
        }
        match self.step {
            ConnectionStep::Header => ConnectionAction::ReadHeader,
            ConnectionStep::Payload(n) => ConnectionAction::ReadPayload(n),
            ConnectionStep::Serve => ConnectionAction::Serve {
                args: receive_args(self.hooks.as_str()),
            },
            ConnectionStep::Refuse(outcome) => match refusal_bytes(outcome) {
                Some(bytes) => ConnectionAction::Refuse { bytes },
                None => ConnectionAction::Stop,
            },
            ConnectionStep::Over => ConnectionAction::Finish,
            ConnectionStep::Failed => ConnectionAction::Stop,
        }
    }

    /// The connection behind a step that ended so.
    pub fn on_event(self, event: ConnectionEvent) -> (r: Self)
        requires
            self@.admits(event@),
        ensures
            r@ == self@.after(event@),
    {
        proof {
            use_type_invariant(&self);
        }
        let ghost before = self@;
        let ghost happened = event@;
        match event {
            ConnectionEvent::Header(header) => {
                let admission = self.auth.on_header(header.as_slice());
                let r = Connection {
                    read: Ghost(before.after(happened).read),
                    step: as_step(admission),
                    ..self
                };
                r
            },
            ConnectionEvent::Payload(payload) => {
                let admission = match &payload {
                    Some(bytes) => self.auth.on_payload(Some(bytes.as_slice())),
                    None => self.auth.on_payload(None),
                };
                let r = Connection {
                    read: Ghost(before.after(happened).read),
                    step: as_step(admission),
                    ..self
                };
                r
            },
            ConnectionEvent::Served { exit_code, signal, inbound, outbound, accepted, stderr } => {
                let contents = match &accepted {
                    Some(contents) => Some(contents.as_str()),
                    None => None,
                };
                let (record, outcome) = received(
                    exit_code,
                    signal,
                    &inbound,
                    &outbound,
                    contents,
                    stderr.as_str(),
                );
                let level = log_level(outcome);
                Connection {
                    step: ConnectionStep::Over,
                    ended: Some(Ended { record, level }),
                    ..self
                }
            },
            ConnectionEvent::Refused => {
                let why = match self.step {
                    ConnectionStep::Refuse(outcome) => outcome,
                    _ => AuthOutcome::Absent,
                };
                let record = ReceiveRecord::unauthenticated(why);
                Connection {
                    step: ConnectionStep::Over,
                    ended: Some(Ended { record, level: LogLevel::Warn }),
                    ..self
                }
            },
            ConnectionEvent::NotSpawned(source) => Connection {
                step: ConnectionStep::Failed,
                failure: Some(ServerError::Spawn(source)),
                ..self
            },
            ConnectionEvent::Broken(source) => Connection {
                step: ConnectionStep::Failed,
                failure: Some(ServerError::Io(source)),
                ..self
            },
        }
    }

    /// The record of the connection and how loudly it is logged, or the error
    /// that ended it, once it is over.
    pub fn outcome(self) -> (r: Option<Result<Ended, ServerError>>)
        ensures
            match r {
                Some(Ok(ended)) => self@.step is Over && self@.record == Some(ended.record@)
                    && self@.level == Some(ended.level),
                Some(Err(e)) => self@.step is Failed && self@.failure == Some(e@),
                None => !(self@.step is Over || self@.step is Failed),
            },
    {
        proof {
            use_type_invariant(&self);
        }
        let Connection { ended, failure, .. } = self;
        match ended {
            Some(ended) => Some(Ok(ended)),
            None => match failure {
                Some(e) => Some(Err(e)),
                None => None,
            },
        }
    }
}

/// How the steps of a connection end that sends `s`, up to where it is decided
/// on.
pub open spec fn reading(s: Seq<u8>) -> Seq<Happening> {
    if s.len() < 4 {
        seq![Happening::Header(s)]
    } else {
        match preamble_len(s.take(4)) {
            None => seq![Happening::Header(s.take(4))],
            Some(n) => seq![
                Happening::Header(s.take(4)),
                Happening::Payload(
                    if s.len() < n {
                        None
                    } else {
                        Some(s.subrange(4, n as int))
                    },
                ),
            ],
        }
    }
}

proof fn lemma_run_of_one(start: ConnectionView, a: Happening)
    requires
        start.admits(a),
    ensures
        connection_run(start, seq![a]) == Some(start.after(a)),
{
    assert(seq![a].drop_last() =~= Seq::empty());
    reveal_with_fuel(connection_run, 2);
}

proof fn lemma_run_of_two(start: ConnectionView, a: Happening, b: Happening)
    requires
        start.admits(a),
        start.after(a).admits(b),
    ensures
        connection_run(start, seq![a, b]) == Some(start.after(a).after(b)),
{
    lemma_run_of_one(start, a);
    assert(seq![a, b].drop_last() =~= seq![a]);
}

/// A connection is served exactly where what it opens with is accepted, and is
/// refused with what that was otherwise. Where it is served, git is left all
/// that stands behind the preamble.
pub proof fn law_a_connection_goes_by_what_it_opens_with(
    s: Seq<u8>,
    secret: Seq<char>,
    hooks: Seq<char>,
)
    ensures
        connection_run(ConnectionView::fresh(Some(secret), hooks), reading(s)) matches Some(c)
            && c.step == (if opening(s, secret) == AuthOutcome::Accepted {
            ConnectionStep::Serve
        } else {
            ConnectionStep::Refuse(opening(s, secret))
        }) && (c.step == ConnectionStep::Serve ==> s == c.read + behind_opening(s)),
{
    lemma_prefix_len();
    let start = ConnectionView::fresh(Some(secret), hooks);
    if s.len() < 4 {
        lemma_run_of_one(start, Happening::Header(s));
    } else {
        let header = Happening::Header(s.take(4));
        match preamble_len(s.take(4)) {
            None => {
                lemma_run_of_one(start, header);
            },
            Some(n) => {
                let payload = if s.len() < n {
                    None
                } else {
                    Some(s.subrange(4, n as int))
                };
                lemma_run_of_two(start, header, Happening::Payload(payload));
                if s.len() >= n {
                    assert(s =~= Seq::empty() + s.take(4) + s.subrange(4, n as int) + s.skip(
                        n as int,
                    ));
                }
            },
        }
    }
}

/// What holds of a connection of which a secret is asked for.
spec fn has_read(c: ConnectionView, secret: Seq<char>) -> bool {
    &&& c.secret == Some(secret)
    &&& match c.step {
        ConnectionStep::Header => c.read.len() == 0,
        ConnectionStep::Payload(n) => c.read.len() == 4 && preamble_len(c.read) == Some(
            (n + 4) as nat,
        ),
        ConnectionStep::Serve => opening(c.read, secret) == AuthOutcome::Accepted
            && behind_opening(c.read).len() == 0,
        ConnectionStep::Refuse(_) => true,
        ConnectionStep::Over => c.record matches Some(record) && (record.auth_failure is None
            ==> opening(c.read, secret) == AuthOutcome::Accepted && behind_opening(c.read).len()
            == 0),
        ConnectionStep::Failed => true,
    }
}

proof fn lemma_has_read(secret: Seq<char>, hooks: Seq<char>, events: Seq<Happening>)
    ensures
        connection_run(ConnectionView::fresh(Some(secret), hooks), events) matches Some(c)
            ==> has_read(c, secret),
    decreases events.len(),
{
    lemma_prefix_len();
    let start = ConnectionView::fresh(Some(secret), hooks);
    if events.len() > 0 {
        lemma_has_read(secret, hooks, events.drop_last());
        if let Some(c) = connection_run(start, events.drop_last()) {
            if c.admits(events.last()) {
                match events.last() {
                    Happening::Header(h) => {
                        assert(Seq::<u8>::empty() + h =~= h);
                        assert(c.read =~= Seq::<u8>::empty());
                    },
                    Happening::Payload(Some(p)) => {
                        let whole = c.read + p;
                        assert(whole.take(4) =~= c.read);
                        assert(whole.subrange(4, whole.len() as int) =~= p);
                        assert(whole.skip(whole.len() as int).len() == 0);
                    },
                    _ => {},
                }
            }
        }
    }
}

/// Git serves a connection only where its preamble was accepted, and then nothing
/// but the preamble was read of it, whatever happened before.
pub proof fn law_git_runs_only_behind_an_accepted_preamble(
    secret: Seq<char>,
    hooks: Seq<char>,
    events: Seq<Happening>,
)
    ensures
        connection_run(ConnectionView::fresh(Some(secret), hooks), events) matches Some(c)
            ==> c.goes_to_git() ==> opening(c.read, secret) == AuthOutcome::Accepted
            && behind_opening(c.read).len() == 0,
{
    lemma_has_read(secret, hooks, events);
}

/// A connection that is refused is told so and recorded with why, and git is not
/// run for it any more.
pub proof fn law_a_refused_connection_is_recorded_with_why(
    c: ConnectionView,
    why: AuthOutcome,
    event: Happening,
)
    requires
        c.step == ConnectionStep::Refuse(why),
        c.admits(event),
    ensures
        c.after(event).step == ConnectionStep::Over,
        c.after(event).record == Some(refusal_record(why)),
        c.after(event).level == Some(LogLevel::Warn),
{
}

/// A connection is served at once where no secret is asked for, and has to open
/// with a preamble where one is.
pub proof fn law_a_secret_is_asked_for_first(secret: Option<Seq<char>>, hooks: Seq<char>)
    ensures
        secret is None ==> ConnectionView::fresh(secret, hooks).step == ConnectionStep::Serve,
        secret is Some ==> ConnectionView::fresh(secret, hooks).step == ConnectionStep::Header,
        ConnectionView::fresh(secret, hooks).secret == secret,
        ConnectionView::fresh(secret, hooks).hooks == hooks,
        ConnectionView::fresh(secret, hooks).read.len() == 0,
{
}

/// A served connection is over with the record of what crossed it, and is logged
/// as loudly as that deserves: as a warning where a push was asked for and did not
/// get through or the hook refused a ref, and as normal work where refs were
/// updated.
pub proof fn law_a_served_connection_is_recorded(c: ConnectionView, x: Exchange)
    requires
        c.step == ConnectionStep::Serve,
    ensures
        c.admits(Happening::Served(x)),
        c.after(Happening::Served(x)).step == ConnectionStep::Over,
        c.after(Happening::Served(x)).record == Some(x.record()),
        c.after(Happening::Served(x)).failure == c.failure,
        c.after(Happening::Served(x)).level == Some(LogLevel::Info) <==> x.exit_code == Some(0i32)
            && !says_refused(x.stderr) && names_a_ref(x.accepted),
        c.after(Happening::Served(x)).level == Some(LogLevel::Warn) <==> says_refused(x.stderr)
            || x.inbound.pre_flush_pkts > 0 && !(x.exit_code == Some(0i32) && names_a_ref(
            x.accepted,
        )),
{
    law_only_failed_pushes_are_worth_a_warning(x);
}

/// A connection fails with why `git` could not be run, or with why the connection
/// broke, and leaves no record.
pub proof fn law_a_failed_connection_says_why(c: ConnectionView, source: Seq<char>)
    requires
        c.step == ConnectionStep::Serve,
    ensures
        c.admits(Happening::NotSpawned(source)),
        c.admits(Happening::Broken(source)),
        c.after(Happening::NotSpawned(source)).step == ConnectionStep::Failed,
        c.after(Happening::NotSpawned(source)).failure == Some(ServerErrorView::Spawn(source)),
        c.after(Happening::NotSpawned(source)).record == c.record,
        c.after(Happening::Broken(source)).step == ConnectionStep::Failed,
        c.after(Happening::Broken(source)).failure == Some(ServerErrorView::Io(source)),
        c.after(Happening::Broken(source)).record == c.record,
{
}

/// A connection keeps what it was opened with: no event changes the secret that is
/// expected or the hooks that run.
pub proof fn law_a_connection_keeps_its_secret(c: ConnectionView, event: Happening)
    ensures
        c.after(event).secret == c.secret,
        c.after(event).hooks == c.hooks,
{
}

/// A step of a connection ends in the answer to what it asked for, and in no
/// other: a header of up to four bytes, a payload of the length that was asked
/// for or none in time, how `git` served it, or that the refusal was sent.
pub proof fn law_a_step_of_a_connection_ends_in_its_own_answer(
    c: ConnectionView,
    event: Happening,
)
    ensures
        event matches Happening::Header(header) ==> (c.admits(event) <==> c.step
            == ConnectionStep::Header && header.len() <= 4),
        event matches Happening::Payload(Some(payload)) ==> (c.admits(event) <==> c.step is Payload
            && payload.len() == c.step->Payload_0),
        event == Happening::Payload(None) ==> (c.admits(event) <==> c.step is Payload),
        event is Served || event is NotSpawned || event is Broken ==> (c.admits(event) <==> c.step
            == ConnectionStep::Serve),
        event is Refused ==> (c.admits(event) <==> c.step is Refuse),
{
}

} // verus!
