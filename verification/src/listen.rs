//! Receiving pushes: who may push, how many at a time, and what a connection
//! turned out to be.

use vstd::prelude::*;

use crate::auth::{
    auth_payload_len, check_auth_payload, err_pkt, framed, judged, law_a_frame_gives_its_length,
    preamble_len, resolved_token, AuthError, AuthOutcome, Token, TokenFile,
};
use crate::pktline::{opens_with, WireCounts};
use crate::protocol::{
    DEFAULT_AUTH_TIMEOUT_SECS, DEFAULT_CONNECTION_TIMEOUT_SECS, DEFAULT_MAX_CONNECTIONS,
    REF_NAMESPACE,
};
use crate::text::{
    chars_of, concat3, contains, has_part, law_trimming_keeps_the_parts, lines, lines_of, part_at,
    push_text, same_text, texts, trim_text, trimmed,
};

verus! {

/// Environment variable that names the file to which the `pre-receive` hook
/// appends the refs that it accepts.
pub const ACCEPTED_REFS_ENV: &'static str = "GFS_ACCEPTED_REFS_FILE";

/// What the `pre-receive` hook prints when it refuses a ref.
pub const HOOK_REFUSAL_MARKER: &'static str = "git-full-send: refusing ref outside";

/// Who may push.
pub enum Auth {
    /// Whoever reaches the port.
    Anonymous,
    /// Whoever presents this secret.
    Token(Token),
}

/// Whom the server serves, and what bounds it.
pub struct ListenConfig {
    /// Who may push.
    pub auth: Auth,
    /// How many connections are served at a time.
    pub max_connections: usize,
    /// How long one connection may take, in milliseconds.
    pub connection_timeout_ms: u64,
    /// How long the server waits for a preamble, in milliseconds.
    pub auth_timeout_ms: u64,
}

impl Default for ListenConfig {
    fn default() -> (r: Self)
        ensures
            r.auth is Anonymous,
            r.max_connections == DEFAULT_MAX_CONNECTIONS,
            r.connection_timeout_ms == DEFAULT_CONNECTION_TIMEOUT_SECS * 1000,
            r.auth_timeout_ms == DEFAULT_AUTH_TIMEOUT_SECS * 1000,
    {
        ListenConfig {
            auth: Auth::Anonymous,
            max_connections: DEFAULT_MAX_CONNECTIONS,
            connection_timeout_ms: DEFAULT_CONNECTION_TIMEOUT_SECS * 1000,
            auth_timeout_ms: DEFAULT_AUTH_TIMEOUT_SECS * 1000,
        }
    }
}

/// The reason that the server cannot say who may push.
#[derive(Debug)]
pub enum ListenAuthError {
    /// The secret could not be established.
    Secret(AuthError),
    /// Neither a secret nor anonymous access was asked for.
    NoChoice,
}

impl ListenAuthError {
    /// The text of [`ListenAuthError::message`].
    pub open spec fn text(self) -> Seq<char> {
        match self {
            ListenAuthError::Secret(e) => e.text(),
            ListenAuthError::NoChoice =>
                "`listen` needs to know who may push: pass `--token-file <PATH>` (or set `GIT_FULL_SEND_TOKEN`) so pushes must present a shared secret, or `--allow-anonymous` to accept unauthenticated pushes from anything that can reach the port. See ADR-0019."@,
        }
    }

    /// What the error says.
    pub fn message(&self) -> (r: String)
        ensures
            r@ == self.text(),
    {
        match self {
            ListenAuthError::Secret(e) => e.message(),
            ListenAuthError::NoChoice =>
                "`listen` needs to know who may push: pass `--token-file <PATH>` (or set `GIT_FULL_SEND_TOKEN`) so pushes must present a shared secret, or `--allow-anonymous` to accept unauthenticated pushes from anything that can reach the port. See ADR-0019.".to_owned(),
        }
    }
}

/// What [`listen_auth`] returns.
pub open spec fn is_listen_auth(
    file: Option<TokenFile>,
    value: Option<Seq<char>>,
    allow_anonymous: bool,
    r: Result<Auth, ListenAuthError>,
) -> bool {
    if allow_anonymous {
        r matches Ok(Auth::Anonymous)
    } else {
        match r {
            Ok(Auth::Token(token)) => resolved_token(file, value, Ok(Some(token))),
            Ok(Auth::Anonymous) => false,
            Err(ListenAuthError::NoChoice) => resolved_token(file, value, Ok(None)),
            Err(ListenAuthError::Secret(e)) => resolved_token(file, value, Err(e)),
        }
    }
}

/// Decides who may push: whoever reaches the port, where that is asked for, and
/// else whoever presents the secret. Nobody may push anonymously by omission.
pub fn listen_auth(
    token_file: Option<&TokenFile>,
    env: Option<&str>,
    allow_anonymous: bool,
) -> (r: Result<Auth, ListenAuthError>)
    ensures
        is_listen_auth(
            match token_file {
                Some(file) => Some(*file),
                None => None,
            },
            match env {
                Some(value) => Some(value@),
                None => None,
            },
            allow_anonymous,
            r,
        ),
{
    if allow_anonymous {
        return Ok(Auth::Anonymous);
    }
    match Token::resolve(token_file, env) {
        Ok(Some(token)) => Ok(Auth::Token(token)),
        Ok(None) => Err(ListenAuthError::NoChoice),
        Err(e) => Err(ListenAuthError::Secret(e)),
    }
}

/// What becomes of a connection.
#[derive(Debug, Clone, Copy, PartialEq, Eq, Structural)]
pub enum Admission {
    /// The header of a preamble is read.
    ReadHeader,
    /// So many bytes of a preamble's payload are read.
    ReadPayload(usize),
    /// `receive-pack` is spawned.
    Serve,
    /// The connection is refused.
    Refuse(AuthOutcome),
}

impl Auth {
    /// What becomes of a fresh connection.
    pub fn start(&self) -> (r: Admission)
        ensures
            r == match *self {
                Auth::Anonymous => Admission::Serve,
                Auth::Token(_) => Admission::ReadHeader,
            },
    {
        match self {
            Auth::Anonymous => Admission::Serve,
            Auth::Token(_) => Admission::ReadHeader,
        }
    }

    /// What becomes of a connection of whose header this came in time: all four
    /// bytes, or what stood before it broke off.
    pub fn on_header(&self, header: &[u8]) -> (r: Admission)
        requires
            header@.len() <= 4,
        ensures
            *self is Anonymous ==> r == Admission::Serve,
            *self is Token ==> if header@.len() == 0 {
                r == Admission::Refuse(AuthOutcome::Absent)
            } else if header@.len() < 4 {
                r == Admission::Refuse(AuthOutcome::Malformed)
            } else {
                match preamble_len(header@) {
                    Some(n) => r matches Admission::ReadPayload(len) && len + 4 == n,
                    None => r == Admission::Refuse(AuthOutcome::Malformed),
                }
            },
    {
        match self {
            Auth::Anonymous => Admission::Serve,
            Auth::Token(_) => if header.len() == 0 {
                Admission::Refuse(AuthOutcome::Absent)
            } else if header.len() < 4 {
                Admission::Refuse(AuthOutcome::Malformed)
            } else {
                let whole: [u8; 4] = [header[0], header[1], header[2], header[3]];
                assert(whole@ =~= header@);
                match auth_payload_len(&whole) {
                    Some(len) => Admission::ReadPayload(len),
                    None => Admission::Refuse(AuthOutcome::Malformed),
                }
            },
        }
    }

    /// What becomes of a connection whose payload was read, or was not in time.
    pub fn on_payload(&self, payload: Option<&[u8]>) -> (r: Admission)
        ensures
            *self is Anonymous ==> r == Admission::Serve,
            *self matches Auth::Token(token) ==> match payload {
                None => r == Admission::Refuse(AuthOutcome::Malformed),
                Some(p) => if judged(p@, token@) == AuthOutcome::Accepted {
                    r == Admission::Serve
                } else {
                    r == Admission::Refuse(judged(p@, token@))
                },
            },
    {
        match self {
            Auth::Anonymous => Admission::Serve,
            Auth::Token(token) => match payload {
                None => Admission::Refuse(AuthOutcome::Malformed),
                Some(p) => {
                    let outcome = check_auth_payload(p, token);
                    if outcome == AuthOutcome::Accepted {
                        Admission::Serve
                    } else {
                        Admission::Refuse(outcome)
                    }
                },
            },
        }
    }
}

/// What is sent to a refused client.
pub open spec fn refusal_line() -> Seq<u8> {
    framed(
        vstd::utf8::encode_utf8("ERR "@) + vstd::utf8::encode_utf8(
            "git-full-send: authentication required (see `listen --token-file`)"@,
        ) + seq![10u8],
    )
}

/// What is sent to a refused client, if it is refused.
pub fn refusal_bytes(outcome: AuthOutcome) -> (r: Option<Vec<u8>>)
    ensures
        match r {
            Some(bytes) => outcome != AuthOutcome::Accepted && bytes@ == refusal_line(),
            None => outcome == AuthOutcome::Accepted,
        },
{
    match outcome.refusal() {
        Some(message) => {
            proof {
                reveal_strlit("git-full-send: authentication required (see `listen --token-file`)");
                assert(vstd::utf8::is_ascii_chars(message@));
                vstd::utf8::is_ascii_chars_encode_utf8(message@);
            }
            Some(err_pkt(message))
        },
        None => None,
    }
}

/// What a connection turned out to be.
#[derive(Debug, Clone, Copy, PartialEq, Eq, Structural)]
pub enum Outcome {
    /// Refs were pushed and accepted.
    Updated,
    /// A complete conversation that updated nothing, such as a probe's.
    NoOp,
    /// No update was asked for and the conversation ended badly: someone
    /// connected and hung up.
    Probe,
    /// The hook refused a ref.
    Rejected,
    /// A push failed.
    Failed,
}

impl Outcome {
    /// The stable name of an outcome.
    pub open spec fn name(self) -> Seq<char> {
        match self {
            Outcome::Updated => "updated"@,
            Outcome::NoOp => "no_op"@,
            Outcome::Probe => "probe"@,
            Outcome::Rejected => "rejected"@,
            Outcome::Failed => "failed"@,
        }
    }

    /// The stable string for the record and the log.
    pub fn as_str(self) -> (r: &'static str)
        ensures
            r@ == self.name(),
    {
        match self {
            Outcome::Updated => "updated",
            Outcome::NoOp => "no_op",
            Outcome::Probe => "probe",
            Outcome::Rejected => "rejected",
            Outcome::Failed => "failed",
        }
    }
}

/// What a connection was, by whether the hook refused a ref, whether
/// `receive-pack` succeeded, how many updates were asked for and how many refs
/// were accepted.
pub open spec fn outcome_of(refused: bool, success: bool, asked: int, accepted: int) -> Outcome {
    if refused {
        Outcome::Rejected
    } else if success {
        if accepted > 0 {
            Outcome::Updated
        } else if asked > 0 {
            Outcome::Rejected
        } else {
            Outcome::NoOp
        }
    } else if asked == 0 {
        Outcome::Probe
    } else {
        Outcome::Failed
    }
}

/// Classifies a finished connection. The hook's refusal does not make
/// `receive-pack` fail, so that its exit alone does not say what happened.
pub fn classify(
    success: bool,
    inbound: &WireCounts,
    refs_updated: &Vec<String>,
    stderr: &str,
) -> (r: Outcome)
    ensures
        r == outcome_of(
            has_part(stderr@, HOOK_REFUSAL_MARKER@),
            success,
            inbound.pre_flush_pkts as int,
            refs_updated@.len() as int,
        ),
{
    let said = chars_of(stderr);
    let marker = chars_of(HOOK_REFUSAL_MARKER);
    if contains(said.as_slice(), marker.as_slice()) {
        return Outcome::Rejected;
    }
    if success {
        if refs_updated.len() > 0 {
            Outcome::Updated
        } else if inbound.pre_flush_pkts > 0 {
            Outcome::Rejected
        } else {
            Outcome::NoOp
        }
    } else if inbound.pre_flush_pkts == 0 {
        Outcome::Probe
    } else {
        Outcome::Failed
    }
}

/// A connection that asked for no update never counts as a failed push.
pub proof fn law_asking_for_nothing_never_fails(refused: bool, success: bool, accepted: int)
    ensures
        outcome_of(refused, success, 0, accepted) != Outcome::Failed,
{
}

/// A push that the hook refused never counts as an update, however
/// `receive-pack` exited.
pub proof fn law_a_refused_push_is_rejected(success: bool, asked: int, accepted: int)
    ensures
        outcome_of(true, success, asked, accepted) == Outcome::Rejected,
        asked > 0 && accepted == 0 ==> outcome_of(false, success, asked, accepted)
            != Outcome::Updated,
{
}

/// How loudly a connection is logged.
#[derive(Debug, Clone, Copy, PartialEq, Eq, Structural)]
pub enum LogLevel {
    /// Something to look at.
    Warn,
    /// Normal work.
    Info,
    /// Nothing to see by default.
    Debug,
}

/// How loudly a connection is logged: a person should look at what was refused
/// and at what failed, and nothing failed where nothing was asked for.
pub open spec fn level_of(outcome: Outcome) -> LogLevel {
    match outcome {
        Outcome::Updated => LogLevel::Info,
        Outcome::NoOp => LogLevel::Debug,
        Outcome::Probe => LogLevel::Debug,
        Outcome::Rejected => LogLevel::Warn,
        Outcome::Failed => LogLevel::Warn,
    }
}

/// How loudly a connection is logged.
pub fn log_level(outcome: Outcome) -> (r: LogLevel)
    ensures
        r == level_of(outcome),
{
    match outcome {
        Outcome::Updated => LogLevel::Info,
        Outcome::NoOp => LogLevel::Debug,
        Outcome::Probe => LogLevel::Debug,
        Outcome::Rejected => LogLevel::Warn,
        Outcome::Failed => LogLevel::Warn,
    }
}

/// The refs that lines name: each line without the white space around it, unless
/// it is empty or named before.
pub open spec fn refs_named(lines: Seq<Seq<char>>) -> Seq<Seq<char>>
    decreases lines.len(),
{
    if lines.len() == 0 {
        Seq::empty()
    } else {
        let front = refs_named(lines.drop_last());
        let name = trimmed(lines.last());
        if name.len() == 0 || front.contains(name) {
            front
        } else {
            front.push(name)
        }
    }
}

fn is_listed(v: &Vec<String>, name: &str) -> (r: bool)
    ensures
        r == texts(v@).contains(name@),
{
    let mut i: usize = 0;
    while i < v.len()
        invariant
            i <= v@.len(),
            forall|k: int| 0 <= k < i ==> #[trigger] texts(v@)[k] != name@,
        decreases v@.len() - i,
    {
        if same_text(v[i].as_str(), name) {
            assert(texts(v@)[i as int] == name@);
            return true;
        }
        i += 1;
    }
    false
}

/// The refs that the hook accepted, by what its file holds: each once, in order.
pub fn read_accepted_refs(contents: &str) -> (r: Vec<String>)
    ensures
        texts(r@) == refs_named(lines_of(contents@)),
{
    let chars = chars_of(contents);
    let all = lines(chars.as_slice());
    let ghost names = texts(all@);
    let mut out: Vec<String> = Vec::new();
    let mut i: usize = 0;
    proof {
        assert(names.take(0) =~= Seq::<Seq<char>>::empty());
        assert(texts(out@) =~= Seq::<Seq<char>>::empty());
    }
    while i < all.len()
        invariant
            i <= all@.len(),
            names == texts(all@),
            texts(out@) == refs_named(names.take(i as int)),
        decreases all@.len() - i,
    {
        proof {
            let next = names.take(i + 1);
            assert(next.drop_last() =~= names.take(i as int));
            assert(next.last() == all@[i as int]@);
        }
        let name = trim_text(all[i].as_str());
        if !name.as_str().is_empty() && !is_listed(&out, name.as_str()) {
            push_text(&mut out, name.as_str());
        }
        i += 1;
    }
    proof {
        assert(names.take(names.len() as int) =~= names);
    }
    out
}

/// What a client sent.
#[derive(Debug, Clone, Copy, PartialEq, Eq, Structural)]
pub struct Inbound {
    /// Every byte received.
    pub total: u64,
    /// The commands, up to and with their flush-pkt.
    pub commands: u64,
    /// How many commands there were.
    pub command_pkts: u64,
    /// The pack.
    pub pack: u64,
}

/// What the server sent.
#[derive(Debug, Clone, Copy, PartialEq, Eq, Structural)]
pub struct Outbound {
    /// Every byte sent.
    pub total: u64,
    /// The ref advertisement, up to and with its flush-pkt.
    pub advertisement: u64,
    /// How many refs were advertised.
    pub refs_advertised: u64,
    /// The report that follows the pack.
    pub report: u64,
}

/// The record of one connection.
pub struct ReceiveRecord {
    /// What the connection was.
    pub outcome: &'static str,
    /// Why authentication was refused, if it was.
    pub auth_failure: Option<&'static str>,
    /// Whether `receive-pack` exited with zero.
    pub success: bool,
    /// Its exit code, if it exited with one.
    pub exit_code: Option<i32>,
    /// The signal that killed it, if one did.
    pub signal: Option<i32>,
    /// What the client sent.
    pub inbound: Inbound,
    /// What the server sent.
    pub outbound: Outbound,
    /// The refs that the hook accepted.
    pub refs_updated: Vec<String>,
}

/// The view of a [`ReceiveRecord`].
#[verifier::ext_equal]
pub struct RecordView {
    pub outcome: Seq<char>,
    pub auth_failure: Option<Seq<char>>,
    pub success: bool,
    pub exit_code: Option<i32>,
    pub signal: Option<i32>,
    pub inbound: Inbound,
    pub outbound: Outbound,
    pub refs_updated: Seq<Seq<char>>,
}

impl View for ReceiveRecord {
    type V = RecordView;

    open spec fn view(&self) -> RecordView {
        RecordView {
            outcome: self.outcome@,
            auth_failure: match self.auth_failure {
                Some(why) => Some(why@),
                None => None,
            },
            success: self.success,
            exit_code: self.exit_code,
            signal: self.signal,
            inbound: self.inbound,
            outbound: self.outbound,
            refs_updated: texts(self.refs_updated@),
        }
    }
}

/// What the record of a connection says that `receive-pack` served.
pub open spec fn record_of(
    outcome: Outcome,
    exit_code: Option<i32>,
    signal: Option<i32>,
    inbound: WireCounts,
    outbound: WireCounts,
    refs_updated: Seq<Seq<char>>,
) -> RecordView {
    RecordView {
        outcome: outcome.name(),
        auth_failure: None,
        success: exit_code == Some(0i32),
        exit_code,
        signal,
        inbound: Inbound {
            total: inbound.total,
            commands: inbound.pre_flush,
            command_pkts: inbound.pre_flush_pkts,
            pack: inbound.post_flush,
        },
        outbound: Outbound {
            total: outbound.total,
            advertisement: outbound.pre_flush,
            refs_advertised: outbound.pre_flush_pkts,
            report: outbound.post_flush,
        },
        refs_updated,
    }
}

/// What the record of a connection says that was refused.
pub open spec fn refusal_record(failure: AuthOutcome) -> RecordView {
    RecordView {
        outcome: "unauthenticated"@,
        auth_failure: Some(failure.name()),
        success: false,
        exit_code: None,
        signal: None,
        inbound: Inbound { total: 0, commands: 0, command_pkts: 0, pack: 0 },
        outbound: Outbound { total: 0, advertisement: 0, refs_advertised: 0, report: 0 },
        refs_updated: Seq::empty(),
    }
}

/// How `receive-pack` served a connection.
#[verifier::ext_equal]
pub struct Exchange {
    /// Its exit code, if it exited with one.
    pub exit_code: Option<i32>,
    /// The signal that killed it, if one did.
    pub signal: Option<i32>,
    /// What the client sent.
    pub inbound: WireCounts,
    /// What the server sent.
    pub outbound: WireCounts,
    /// What the hook's file holds, if it could be read.
    pub accepted: Option<Seq<char>>,
    /// What the process printed.
    pub stderr: Seq<char>,
}

impl Exchange {
    /// The refs that the hook accepted.
    pub open spec fn refs(self) -> Seq<Seq<char>> {
        match self.accepted {
            Some(contents) => refs_named(lines_of(contents)),
            None => Seq::empty(),
        }
    }

    /// What the connection was.
    pub open spec fn outcome(self) -> Outcome {
        outcome_of(
            has_part(trimmed(self.stderr), HOOK_REFUSAL_MARKER@),
            self.exit_code == Some(0i32),
            self.inbound.pre_flush_pkts as int,
            self.refs().len() as int,
        )
    }

    /// What its record says.
    pub open spec fn record(self) -> RecordView {
        record_of(
            self.outcome(),
            self.exit_code,
            self.signal,
            self.inbound,
            self.outbound,
            self.refs(),
        )
    }
}

impl ReceiveRecord {
    /// The record of a connection that `receive-pack` served, from how the
    /// process ended and what crossed the wire.
    pub fn new(
        outcome: Outcome,
        exit_code: Option<i32>,
        signal: Option<i32>,
        inbound: &WireCounts,
        outbound: &WireCounts,
        refs_updated: Vec<String>,
    ) -> (r: Self)
        ensures
            r@ == record_of(
                outcome,
                exit_code,
                signal,
                *inbound,
                *outbound,
                texts(refs_updated@),
            ),
    {
        ReceiveRecord {
            outcome: outcome.as_str(),
            auth_failure: None,
            success: is_success(exit_code),
            exit_code,
            signal,
            inbound: Inbound {
                total: inbound.total,
                commands: inbound.pre_flush,
                command_pkts: inbound.pre_flush_pkts,
                pack: inbound.post_flush,
            },
            outbound: Outbound {
                total: outbound.total,
                advertisement: outbound.pre_flush,
                refs_advertised: outbound.pre_flush_pkts,
                report: outbound.post_flush,
            },
            refs_updated,
        }
    }

    /// The record of a connection that was refused before anything was spawned.
    pub fn unauthenticated(failure: AuthOutcome) -> (r: Self)
        ensures
            r@ == refusal_record(failure),
    {
        ReceiveRecord {
            outcome: "unauthenticated",
            auth_failure: Some(failure.as_str()),
            success: false,
            exit_code: None,
            signal: None,
            inbound: Inbound { total: 0, commands: 0, command_pkts: 0, pack: 0 },
            outbound: Outbound { total: 0, advertisement: 0, refs_advertised: 0, report: 0 },
            refs_updated: Vec::new(),
        }
    }
}

fn is_success(exit_code: Option<i32>) -> (r: bool)
    ensures
        r == (exit_code == Some(0i32)),
{
    match exit_code {
        Some(code) => code == 0,
        None => false,
    }
}

/// An [`Exchange`] by what was seen of it.
pub open spec fn exchange(
    exit_code: Option<i32>,
    signal: Option<i32>,
    inbound: WireCounts,
    outbound: WireCounts,
    accepted: Option<&str>,
    stderr: &str,
) -> Exchange {
    Exchange {
        exit_code,
        signal,
        inbound,
        outbound,
        accepted: match accepted {
            Some(contents) => Some(contents@),
            None => None,
        },
        stderr: stderr@,
    }
}

/// The record of a connection that `receive-pack` served, from how the process
/// ended, what crossed the wire, what the hook's file holds, if it could be read,
/// and what the process printed; and what the connection was.
pub fn received(
    exit_code: Option<i32>,
    signal: Option<i32>,
    inbound: &WireCounts,
    outbound: &WireCounts,
    accepted: Option<&str>,
    stderr: &str,
) -> (r: (ReceiveRecord, Outcome))
    ensures
        r.0@ == exchange(exit_code, signal, *inbound, *outbound, accepted, stderr).record(),
        r.1 == exchange(exit_code, signal, *inbound, *outbound, accepted, stderr).outcome(),
{
    let refs = match accepted {
        Some(contents) => read_accepted_refs(contents),
        None => Vec::new(),
    };
    proof {
        if accepted is None {
            assert(texts(refs@) =~= Seq::<Seq<char>>::empty());
        }
    }
    let said = trim_text(stderr);
    let outcome = classify(is_success(exit_code), inbound, &refs, said.as_str());
    let record = ReceiveRecord::new(outcome, exit_code, signal, inbound, outbound, refs);
    (record, outcome)
}

/// The arguments of `git` that serve one connection, but for the repository that
/// comes last.
pub open spec fn receive_args_of(hooks_dir: Seq<char>) -> Seq<Seq<char>> {
    seq![
        "-c"@,
        "receive.autogc=false"@,
        "-c"@,
        "core.hooksPath="@ + hooks_dir,
        "receive-pack"@,
    ]
}

/// The arguments of `git` that serve one connection, but for the repository that
/// comes last. Nothing is packed behind a push, and the hooks of `hooks_dir` run
/// in place of the repository's own.
pub fn receive_args(hooks_dir: &str) -> (r: Vec<String>)
    ensures
        texts(r@) == receive_args_of(hooks_dir@),
{
    let mut out: Vec<String> = Vec::new();
    push_text(&mut out, "-c");
    push_text(&mut out, "receive.autogc=false");
    push_text(&mut out, "-c");
    let hooks = concat3("core.hooksPath=", hooks_dir, "");
    proof {
        reveal_strlit("");
        assert(hooks@ =~= "core.hooksPath="@ + hooks_dir@);
    }
    push_text(&mut out, hooks.as_str());
    push_text(&mut out, "receive-pack");
    proof {
        assert(texts(out@) =~= receive_args_of(hooks_dir@));
    }
    out
}

/// What the accept loop does next.
#[derive(Debug, Clone, Copy, PartialEq, Eq, Structural)]
pub enum AcceptAction {
    /// It waits for a connection, for the end of one, or to be stopped.
    Accept,
    /// It waits for the end of a connection, or to be stopped.
    AwaitSlot,
    /// It was stopped, and waits for the end of a connection.
    Drain,
    /// It ends.
    Finish,
}

/// What happened to the accept loop.
#[derive(Debug, Clone, Copy, PartialEq, Eq, Structural)]
pub enum AcceptEvent {
    /// A connection was accepted.
    Connected,
    /// A connection could not be accepted.
    AcceptFailed,
    /// A connection has been served.
    Served,
    /// The server was told to stop.
    Stopped,
}

/// The state of the accept loop.
#[verifier::ext_equal]
pub struct AcceptView {
    /// How many connections may be served at a time.
    pub slots: nat,
    /// How many are being served.
    pub live: nat,
    /// Whether the server was told to stop.
    pub stopping: bool,
}

impl AcceptView {
    /// What is done in this state.
    pub open spec fn action(self) -> AcceptAction {
        if self.stopping {
            if self.live == 0 {
                AcceptAction::Finish
            } else {
                AcceptAction::Drain
            }
        } else if self.live < self.slots {
            AcceptAction::Accept
        } else {
            AcceptAction::AwaitSlot
        }
    }

    /// Whether an event can happen in this state.
    pub open spec fn admits(self, event: AcceptEvent) -> bool {
        match event {
            AcceptEvent::Connected => self.action() == AcceptAction::Accept,
            AcceptEvent::AcceptFailed => self.action() == AcceptAction::Accept,
            AcceptEvent::Served => self.live > 0,
            AcceptEvent::Stopped => true,
        }
    }

    /// The state behind an event.
    pub open spec fn after(self, event: AcceptEvent) -> AcceptView {
        match event {
            AcceptEvent::Connected => AcceptView { live: self.live + 1, ..self },
            AcceptEvent::AcceptFailed => self,
            AcceptEvent::Served => AcceptView { live: (self.live - 1) as nat, ..self },
            AcceptEvent::Stopped => AcceptView { stopping: true, ..self },
        }
    }
}

/// The state behind events, each of which can happen where it comes.
pub open spec fn accept_run(start: AcceptView, events: Seq<AcceptEvent>) -> Option<AcceptView>
    decreases events.len(),
{
    if events.len() == 0 {
        Some(start)
    } else {
        match accept_run(start, events.drop_last()) {
            Some(state) => if state.admits(events.last()) {
                Some(state.after(events.last()))
            } else {
                None
            },
            None => None,
        }
    }
}

/// The loop that accepts connections: as many at a time as there are slots, and
/// none once it was told to stop.
pub struct AcceptLoop {
    slots: usize,
    live: usize,
    stopping: bool,
}

impl View for AcceptLoop {
    type V = AcceptView;

    closed spec fn view(&self) -> AcceptView {
        AcceptView {
            slots: self.slots as nat,
            live: self.live as nat,
            stopping: self.stopping,
        }
    }
}

impl AcceptLoop {
    #[verifier::type_invariant]
    spec fn well_formed(self) -> bool {
        self.live <= self.slots
    }

    /// A loop that serves up to `max_connections` at a time.
    pub fn new(max_connections: usize) -> (r: Self)
        ensures
            r@ == (AcceptView { slots: max_connections as nat, live: 0, stopping: false }),
    {
        AcceptLoop { slots: max_connections, live: 0, stopping: false }
    }

    /// What is done next.
    pub fn action(&self) -> (r: AcceptAction)
        ensures
            r == self@.action(),
    {
        if self.stopping {
            if self.live == 0 {
                AcceptAction::Finish
            } else {
                AcceptAction::Drain
            }
        } else if self.live < self.slots {
            AcceptAction::Accept
        } else {
            AcceptAction::AwaitSlot
        }
    }

    /// Takes in what happened.
    pub fn on_event(&mut self, event: AcceptEvent)
        requires
            old(self)@.admits(event),
        ensures
            final(self)@ == old(self)@.after(event),
    {
        proof {
            use_type_invariant(&*self);
        }
        match event {
            AcceptEvent::Connected => {
                self.live = self.live + 1;
            },
            AcceptEvent::AcceptFailed => {},
            AcceptEvent::Served => {
                self.live = self.live - 1;
            },
            AcceptEvent::Stopped => {
                self.stopping = true;
            },
        }
    }
}

proof fn lemma_accept_run(slots: nat, events: Seq<AcceptEvent>)
    ensures
        accept_run(AcceptView { slots, live: 0, stopping: false }, events) matches Some(state)
            ==> state.slots == slots && state.live <= slots && state.stopping == events.contains(
            AcceptEvent::Stopped,
        ),
    decreases events.len(),
{
    if events.len() > 0 {
        let front = events.drop_last();
        lemma_accept_run(slots, front);
        assert(front.push(events.last()) =~= events);
        if front.contains(AcceptEvent::Stopped) {
            let i = choose|i: int| 0 <= i < front.len() && front[i] == AcceptEvent::Stopped;
            assert(events[i] == AcceptEvent::Stopped);
        }
        if events.contains(AcceptEvent::Stopped) && events.last() != AcceptEvent::Stopped {
            let i = choose|i: int| 0 <= i < events.len() && events[i] == AcceptEvent::Stopped;
            assert(front[i] == AcceptEvent::Stopped);
        }
        if events.last() == AcceptEvent::Stopped {
            assert(events[events.len() - 1] == AcceptEvent::Stopped);
        }
    }
}

/// Whatever happens, no more connections are served at a time than there are
/// slots.
pub proof fn law_the_cap_holds(slots: nat, events: Seq<AcceptEvent>)
    ensures
        accept_run(AcceptView { slots, live: 0, stopping: false }, events) matches Some(state)
            ==> state.live <= slots,
{
    lemma_accept_run(slots, events);
}

/// Once the server was told to stop, no connection is accepted.
pub proof fn law_nothing_is_accepted_after_a_stop(slots: nat, events: Seq<AcceptEvent>)
    requires
        events.contains(AcceptEvent::Stopped),
    ensures
        accept_run(AcceptView { slots, live: 0, stopping: false }, events) matches Some(state)
            ==> !state.admits(AcceptEvent::Connected) && state.action() != AcceptAction::Accept,
{
    lemma_accept_run(slots, events);
}

/// The loop ends exactly where it was told to stop and every connection that it
/// accepted has been served.
pub proof fn law_a_stop_drains(slots: nat, events: Seq<AcceptEvent>)
    ensures
        accept_run(AcceptView { slots, live: 0, stopping: false }, events) matches Some(state) ==> (
        state.action() == AcceptAction::Finish <==> events.contains(AcceptEvent::Stopped)
            && tally(events, AcceptEvent::Connected) == tally(events, AcceptEvent::Served)),
{
    lemma_accept_run(slots, events);
    lemma_live(slots, events);
}

/// How often an event happened.
pub open spec fn tally(events: Seq<AcceptEvent>, event: AcceptEvent) -> nat
    decreases events.len(),
{
    if events.len() == 0 {
        0
    } else if events.last() == event {
        tally(events.drop_last(), event) + 1
    } else {
        tally(events.drop_last(), event)
    }
}

proof fn lemma_live(slots: nat, events: Seq<AcceptEvent>)
    ensures
        accept_run(AcceptView { slots, live: 0, stopping: false }, events) matches Some(state)
            ==> state.live + tally(events, AcceptEvent::Served) == tally(
            events,
            AcceptEvent::Connected,
        ),
    decreases events.len(),
{
    if events.len() > 0 {
        lemma_live(slots, events.drop_last());
    }
}

/// The text of the `pre-receive` hook.
pub open spec fn hook_text() -> Seq<char> {
    "#!/bin/sh\nwhile read -r old new ref; do\n\tcase \"$ref\" in\n\t"@ + REF_NAMESPACE@
        + "*)\n\t\t[ -n \"$"@ + ACCEPTED_REFS_ENV@ + "\" ] && printf '%s\\n' \"$ref\" >> \"$"@
        + ACCEPTED_REFS_ENV@ + "\" ;;\n\t*) echo \""@ + HOOK_REFUSAL_MARKER@ + " "@
        + REF_NAMESPACE@ + ": $ref\" >&2; exit 1 ;;\n\tesac\ndone\n"@
}

proof fn lemma_hook_parts()
    ensures
        has_part(hook_text(), REF_NAMESPACE@),
        has_part(hook_text(), HOOK_REFUSAL_MARKER@),
        has_part(hook_text(), ACCEPTED_REFS_ENV@),
{
    let head = "#!/bin/sh\nwhile read -r old new ref; do\n\tcase \"$ref\" in\n\t"@;
    let whole = hook_text();
    let n = head.len() as int;
    assert(whole.subrange(n, n + REF_NAMESPACE@.len()) =~= REF_NAMESPACE@);
    assert(part_at(whole, REF_NAMESPACE@, n));
    let m = (head + REF_NAMESPACE@ + "*)\n\t\t[ -n \"$"@).len() as int;
    assert(whole.subrange(m, m + ACCEPTED_REFS_ENV@.len()) =~= ACCEPTED_REFS_ENV@);
    assert(part_at(whole, ACCEPTED_REFS_ENV@, m));
    let k = (head + REF_NAMESPACE@ + "*)\n\t\t[ -n \"$"@ + ACCEPTED_REFS_ENV@
        + "\" ] && printf '%s\\n' \"$ref\" >> \"$"@ + ACCEPTED_REFS_ENV@
        + "\" ;;\n\t*) echo \""@).len() as int;
    assert(whole.subrange(k, k + HOOK_REFUSAL_MARKER@.len()) =~= HOOK_REFUSAL_MARKER@);
    assert(part_at(whole, HOOK_REFUSAL_MARKER@, k));
}

/// The `pre-receive` hook: it refuses every ref outside the namespace of synced
/// refs, and notes the refs that it accepts. What it prints where it refuses one
/// is what [`classify`] looks for.
pub fn pre_receive_hook() -> (r: String)
    ensures
        r@ == hook_text(),
        has_part(r@, REF_NAMESPACE@),
        has_part(r@, HOOK_REFUSAL_MARKER@),
        has_part(r@, ACCEPTED_REFS_ENV@),
{
    proof {
        lemma_hook_parts();
    }
    let mut out =
        "#!/bin/sh\nwhile read -r old new ref; do\n\tcase \"$ref\" in\n\t".to_owned();
    out.append(REF_NAMESPACE);
    out.append("*)\n\t\t[ -n \"$");
    out.append(ACCEPTED_REFS_ENV);
    out.append("\" ] && printf '%s\\n' \"$ref\" >> \"$");
    out.append(ACCEPTED_REFS_ENV);
    out.append("\" ;;\n\t*) echo \"");
    out.append(HOOK_REFUSAL_MARKER);
    out.append(" ");
    out.append(REF_NAMESPACE);
    out.append(": $ref\" >&2; exit 1 ;;\n\tesac\ndone\n");
    out
}

/// What the hook prints when it refuses `name`.
pub open spec fn hook_refusal(name: Seq<char>) -> Seq<char> {
    HOOK_REFUSAL_MARKER@ + " "@ + REF_NAMESPACE@ + ": "@ + name
}

/// What the hook prints when it refuses a ref is what a classified connection is
/// searched for, whatever else was printed.
pub proof fn law_a_hook_refusal_is_recognised(
    before: Seq<char>,
    name: Seq<char>,
    after: Seq<char>,
)
    ensures
        has_part(before + hook_refusal(name) + after, HOOK_REFUSAL_MARKER@),
{
    let whole = before + hook_refusal(name) + after;
    let marker = HOOK_REFUSAL_MARKER@;
    assert(whole.subrange(before.len() as int, (before.len() + marker.len()) as int) =~= marker);
    assert(part_at(whole, marker, before.len() as int));
}

/// Whether a connection's file of accepted refs names one: whether some line of
/// it holds more than white space.
pub open spec fn names_a_ref(accepted: Option<Seq<char>>) -> bool {
    accepted matches Some(contents) && exists|k: int|
        0 <= k < lines_of(contents).len() && trimmed(#[trigger] lines_of(contents)[k]).len() > 0
}

proof fn lemma_refs_named(lines: Seq<Seq<char>>)
    ensures
        refs_named(lines).len() > 0 <==> exists|k: int|
            0 <= k < lines.len() && trimmed(#[trigger] lines[k]).len() > 0,
        forall|name: Seq<char>|
            #[trigger] refs_named(lines).contains(name) <==> name.len() > 0 && exists|k: int|
                0 <= k < lines.len() && trimmed(#[trigger] lines[k]) == name,
        refs_named(lines).no_duplicates(),
    decreases lines.len(),
{
    if lines.len() > 0 {
        let front = lines.drop_last();
        lemma_refs_named(front);
        let before = refs_named(front);
        let after = refs_named(lines);
        let last = trimmed(lines.last());
        assert(lines[lines.len() - 1] == lines.last());
        assert forall|k: int| 0 <= k < front.len() implies #[trigger] front[k] == lines[k] by {}
        assert forall|name: Seq<char>| #[trigger] after.contains(name) <==> name.len() > 0
            && exists|k: int|
            0 <= k < lines.len() && trimmed(#[trigger] lines[k]) == name by {
            if after.contains(name) {
                let i = choose|i: int| 0 <= i < after.len() && after[i] == name;
                if i < before.len() {
                    assert(before[i] == name);
                    assert(before.contains(name));
                    let k = choose|k: int|
                        0 <= k < front.len() && trimmed(#[trigger] front[k]) == name;
                    assert(trimmed(lines[k]) == name);
                }
            }
            if name.len() > 0 && exists|k: int|
                0 <= k < lines.len() && trimmed(#[trigger] lines[k]) == name {
                let k = choose|k: int| 0 <= k < lines.len() && trimmed(#[trigger] lines[k]) == name;
                if k < front.len() {
                    assert(trimmed(front[k]) == name);
                    assert(before.contains(name));
                    let i = choose|i: int| 0 <= i < before.len() && before[i] == name;
                    assert(after[i] == name);
                } else if before.contains(name) {
                    let i = choose|i: int| 0 <= i < before.len() && before[i] == name;
                    assert(after[i] == name);
                } else {
                    assert(after[before.len() as int] == name);
                }
            }
        }
        if after.len() > 0 {
            assert(after.contains(after[0]));
            let k = choose|k: int| 0 <= k < lines.len() && trimmed(#[trigger] lines[k]) == after[0];
            assert(trimmed(lines[k]).len() > 0);
        }
        if exists|k: int| 0 <= k < lines.len() && trimmed(#[trigger] lines[k]).len() > 0 {
            let k = choose|k: int| 0 <= k < lines.len() && trimmed(#[trigger] lines[k]).len() > 0;
            assert(after.contains(trimmed(lines[k])));
        }
        if last.len() > 0 && !before.contains(last) {
            assert forall|i: int, j: int|
                0 <= i < after.len() && 0 <= j < after.len() && i != j implies after[i]
                != after[j] by {
                if i < before.len() {
                    assert(before.contains(before[i]));
                }
                if j < before.len() {
                    assert(before.contains(before[j]));
                }
            }
        }
    }
}

/// The refs that the hook accepted are those that the lines of its file name,
/// without the white space around them, each once; what one file says behind
/// another adds those that are new and reorders none.
pub proof fn law_each_accepted_ref_is_named_once(
    lines: Seq<Seq<char>>,
    more: Seq<Seq<char>>,
    name: Seq<char>,
)
    ensures
        refs_named(lines).no_duplicates(),
        refs_named(lines).contains(name) <==> name.len() > 0 && exists|k: int|
            0 <= k < lines.len() && trimmed(#[trigger] lines[k]) == name,
        refs_named(lines).is_prefix_of(refs_named(lines + more)),
    decreases more.len(),
{
    lemma_refs_named(lines);
    let start = refs_named(lines);
    if more.len() == 0 {
        assert(lines + more =~= lines);
        assert(start.subrange(0, start.len() as int) =~= start);
    } else {
        law_each_accepted_ref_is_named_once(lines, more.drop_last(), name);
        assert((lines + more).drop_last() =~= lines + more.drop_last());
        let before = refs_named(lines + more.drop_last());
        let after = refs_named(lines + more);
        assert(before.subrange(0, start.len() as int) =~= start);
        assert(after.subrange(0, start.len() as int) =~= start) by {
            assert forall|i: int| 0 <= i < start.len() implies after[i] == start[i] by {
                assert(before.subrange(0, start.len() as int)[i] == before[i]);
            }
        }
    }
}

/// Whether the hook said that it refused a ref.
pub open spec fn says_refused(stderr: Seq<char>) -> bool {
    has_part(stderr, "git-full-send: refusing ref outside"@)
}

/// A connection is what happened on it. Where the hook refused a ref, it was
/// rejected. Else, where `receive-pack` exited with zero, refs were updated if any
/// was accepted, the push was rejected if one was asked for, and nothing was done
/// if none was; where it did not, a push failed if one was asked for, and someone
/// looked in if none was.
pub proof fn law_a_connection_is_what_happened_on_it(x: Exchange)
    ensures
        says_refused(x.stderr) ==> x.outcome() == Outcome::Rejected,
        !says_refused(x.stderr) && x.exit_code == Some(0i32) ==> {
            &&& names_a_ref(x.accepted) ==> x.outcome() == Outcome::Updated
            &&& !names_a_ref(x.accepted) && x.inbound.pre_flush_pkts > 0 ==> x.outcome()
                == Outcome::Rejected
            &&& !names_a_ref(x.accepted) && x.inbound.pre_flush_pkts == 0 ==> x.outcome()
                == Outcome::NoOp
        },
        !says_refused(x.stderr) && x.exit_code != Some(0i32) ==> {
            &&& x.inbound.pre_flush_pkts > 0 ==> x.outcome() == Outcome::Failed
            &&& x.inbound.pre_flush_pkts == 0 ==> x.outcome() == Outcome::Probe
        },
        x.record().outcome == match x.outcome() {
            Outcome::Updated => "updated"@,
            Outcome::NoOp => "no_op"@,
            Outcome::Probe => "probe"@,
            Outcome::Rejected => "rejected"@,
            Outcome::Failed => "failed"@,
        },
{
    reveal_strlit("git-full-send: refusing ref outside");
    law_trimming_keeps_the_parts(x.stderr, "git-full-send: refusing ref outside"@);
    if let Some(contents) = x.accepted {
        lemma_refs_named(lines_of(contents));
    }
}

/// A person is told of a connection exactly where a push was asked for and did
/// not get through, or the hook refused a ref; a push that got through is normal
/// work.
pub proof fn law_only_failed_pushes_are_worth_a_warning(x: Exchange)
    ensures
        level_of(x.outcome()) == LogLevel::Info <==> x.exit_code == Some(0i32) && !says_refused(
            x.stderr,
        ) && names_a_ref(x.accepted),
        level_of(x.outcome()) == LogLevel::Warn <==> says_refused(x.stderr)
            || x.inbound.pre_flush_pkts > 0 && !(x.exit_code == Some(0i32) && names_a_ref(
            x.accepted,
        )),
{
    law_a_connection_is_what_happened_on_it(x);
}

/// A record says how the process ended and what crossed the wire in each
/// direction, before the flush-pkt and behind it.
pub proof fn law_a_record_says_what_crossed_the_wire(x: Exchange)
    ensures
        x.record().success <==> x.exit_code == Some(0i32),
        x.record().exit_code == x.exit_code,
        x.record().signal == x.signal,
        x.record().auth_failure is None,
        x.record().inbound.total == x.inbound.total,
        x.record().outbound.total == x.outbound.total,
        x.record().inbound.commands == x.inbound.pre_flush,
        x.record().inbound.command_pkts == x.inbound.pre_flush_pkts,
        x.record().inbound.pack == x.inbound.post_flush,
        x.record().outbound.advertisement == x.outbound.pre_flush,
        x.record().outbound.refs_advertised == x.outbound.pre_flush_pkts,
        x.record().outbound.report == x.outbound.post_flush,
        x.accepted matches Some(contents) ==> forall|name: Seq<char>|
            #[trigger] x.record().refs_updated.contains(name) <==> name.len() > 0 && exists|k: int|
                0 <= k < lines_of(contents).len() && trimmed(#[trigger] lines_of(contents)[k])
                    == name,
        x.accepted is None ==> x.record().refs_updated.len() == 0,
{
    if let Some(contents) = x.accepted {
        lemma_refs_named(lines_of(contents));
    }
}

/// The record of a refused connection says why, and that nothing crossed the wire.
pub proof fn law_a_refusal_record_says_why(failure: AuthOutcome)
    ensures
        refusal_record(failure).outcome == "unauthenticated"@,
        refusal_record(failure).auth_failure == Some(failure.name()),
        !refusal_record(failure).success,
        refusal_record(failure).exit_code is None,
        refusal_record(failure).signal is None,
        refusal_record(failure).inbound.total + refusal_record(failure).outbound.total == 0,
        refusal_record(failure).inbound.commands + refusal_record(failure).inbound.pack == 0,
        refusal_record(failure).inbound.command_pkts == 0,
        refusal_record(failure).outbound.advertisement + refusal_record(failure).outbound.report
            == 0,
        refusal_record(failure).outbound.refs_advertised == 0,
        refusal_record(failure).refs_updated.len() == 0,
{
}

/// A connection is accepted whenever the server was not told to stop and fewer
/// are being served than there are slots, and a slot is waited for where as many
/// are.
pub proof fn law_a_free_slot_is_offered(slots: nat, events: Seq<AcceptEvent>)
    ensures
        accept_run(AcceptView { slots, live: 0, stopping: false }, events) matches Some(state) ==> {
            let served = tally(events, AcceptEvent::Connected) - tally(events, AcceptEvent::Served);
            &&& state.action() == AcceptAction::Accept <==> !events.contains(AcceptEvent::Stopped)
                && served < slots
            &&& state.action() == AcceptAction::AwaitSlot <==> !events.contains(
                AcceptEvent::Stopped,
            ) && served == slots
            &&& state.action() == AcceptAction::Drain <==> events.contains(AcceptEvent::Stopped)
                && served > 0
            &&& state.admits(AcceptEvent::Connected) <==> state.action() == AcceptAction::Accept
            &&& state.admits(AcceptEvent::Served) <==> served > 0
            &&& state.admits(AcceptEvent::Stopped)
        },
{
    lemma_accept_run(slots, events);
    lemma_live(slots, events);
}

/// Nothing is packed behind a push, and the hooks that run are those of the given
/// directory: both settings come before the command, which comes last.
pub proof fn law_a_push_runs_the_hooks_that_are_given(hooks_dir: Seq<char>)
    ensures
        receive_args_of(hooks_dir).last() == "receive-pack"@,
        exists|i: int|
            0 <= i < receive_args_of(hooks_dir).len() - 2 && #[trigger] receive_args_of(
                hooks_dir,
            )[i] == "-c"@ && receive_args_of(hooks_dir)[i + 1] == "receive.autogc=false"@,
        exists|i: int|
            0 <= i < receive_args_of(hooks_dir).len() - 2 && #[trigger] receive_args_of(
                hooks_dir,
            )[i] == "-c"@ && receive_args_of(hooks_dir)[i + 1] == "core.hooksPath="@ + hooks_dir,
{
    let args = receive_args_of(hooks_dir);
    assert(args[0] == "-c"@ && args[1] == "receive.autogc=false"@);
    assert(args[2] == "-c"@ && args[3] == "core.hooksPath="@ + hooks_dir);
}

/// The hook looks at each ref that is pushed: it notes the name of one in the
/// namespace of synced refs, in the file that the environment names, if it names
/// one; at any other it says which ref it refuses, and fails the push.
pub proof fn law_the_hook_notes_or_refuses_each_ref()
    ensures
        ("#!/bin/sh\nwhile read -r old new ref; do\n\tcase \"$ref\" in\n\t"@
            + "refs/git-full-send/"@ + "*)\n\t\t[ -n \"$"@ + "GFS_ACCEPTED_REFS_FILE"@
            + "\" ] && printf '%s\\n' \"$ref\" >> \"$"@
            + "GFS_ACCEPTED_REFS_FILE"@).is_prefix_of(hook_text()),
        ("git-full-send: refusing ref outside"@ + " "@ + "refs/git-full-send/"@
            + ": $ref\" >&2; exit 1 ;;\n\tesac\ndone\n"@).is_suffix_of(hook_text()),
{
    let head = "#!/bin/sh\nwhile read -r old new ref; do\n\tcase \"$ref\" in\n\t"@
        + "refs/git-full-send/"@ + "*)\n\t\t[ -n \"$"@ + "GFS_ACCEPTED_REFS_FILE"@
        + "\" ] && printf '%s\\n' \"$ref\" >> \"$"@ + "GFS_ACCEPTED_REFS_FILE"@;
    let tail = "git-full-send: refusing ref outside"@ + " "@ + "refs/git-full-send/"@
        + ": $ref\" >&2; exit 1 ;;\n\tesac\ndone\n"@;
    let whole = hook_text();
    assert(whole =~= head + "\" ;;\n\t*) echo \""@ + tail);
    assert(whole.subrange(0, head.len() as int) =~= head);
    assert(whole.subrange(whole.len() - tail.len(), whole.len() as int) =~= tail);
}

/// Nobody may push anonymously by omission: whoever reaches the port may push
/// exactly where that was asked for. Else a secret is expected: that of the token
/// file, or without one that of the environment, and where there is neither the
/// server does not start.
pub proof fn law_nobody_pushes_anonymously_by_omission(
    file: Option<TokenFile>,
    value: Option<Seq<char>>,
    allow_anonymous: bool,
    r: Result<Auth, ListenAuthError>,
)
    requires
        is_listen_auth(file, value, allow_anonymous, r),
    ensures
        (r matches Ok(Auth::Anonymous)) <==> allow_anonymous,
        (r matches Err(ListenAuthError::NoChoice)) <==> !allow_anonymous && file is None && (
        value matches Some(v) ==> trimmed(v).len() == 0),
        r matches Ok(Auth::Token(token)) ==> match (file, value) {
            (Some(f), _) => f.contents matches Ok(contents) && token@ == trimmed(contents@),
            (None, Some(v)) => token@ == trimmed(v),
            (None, None) => false,
        },
{
}

/// What a refused client is sent is one pkt-line, by which git tells its user that
/// authentication is required.
pub proof fn law_a_refusal_is_one_error_line()
    ensures
        opens_with(refusal_line(), refusal_line().len() as int),
        refusal_line().skip(4) == vstd::utf8::encode_utf8("ERR "@) + vstd::utf8::encode_utf8(
            "git-full-send: authentication required (see `listen --token-file`)"@,
        ) + seq![10u8],
{
    reveal_strlit("ERR ");
    reveal_strlit("git-full-send: authentication required (see `listen --token-file`)");
    vstd::utf8::is_ascii_chars_encode_utf8("ERR "@);
    vstd::utf8::is_ascii_chars_encode_utf8(
        "git-full-send: authentication required (see `listen --token-file`)"@,
    );
    let payload = vstd::utf8::encode_utf8("ERR "@) + vstd::utf8::encode_utf8(
        "git-full-send: authentication required (see `listen --token-file`)"@,
    ) + seq![10u8];
    law_a_frame_gives_its_length(payload);
}

} // verus!
