//! Receiving pushes.

use git_full_send::auth::{auth_pkt, AuthError, AuthOutcome, Token, TokenFile};
use git_full_send::connection::{Connection, ConnectionAction, ConnectionEvent, Ended};
use git_full_send::listen::{
    classify, listen_auth, log_level, pre_receive_hook, read_accepted_refs, receive_args,
    received, refusal_bytes, AcceptAction, AcceptEvent, AcceptLoop, Admission, Auth,
    ListenAuthError, ListenConfig, LogLevel, Outcome, ReceiveRecord, ACCEPTED_REFS_ENV,
    HOOK_REFUSAL_MARKER,
};
use git_full_send::pktline::WireCounts;
use git_full_send::protocol::REF_NAMESPACE;
use git_full_send::server::ServerError;

#[test]
fn hook_guards_the_shared_namespace_constant() {
    let hook = pre_receive_hook();
    assert!(hook.contains(REF_NAMESPACE));
    assert!(hook.starts_with("#!/bin/sh"));
}

#[test]
fn hook_records_accepted_refs_to_the_env_file() {
    let hook = pre_receive_hook();
    // Accepted refs are appended to the file named by the variable.
    assert!(hook.contains(ACCEPTED_REFS_ENV));
}

#[test]
fn the_hook_in_full() {
    assert_eq!(
        pre_receive_hook(),
        "#!/bin/sh\n\
         while read -r old new ref; do\n\
         \tcase \"$ref\" in\n\
         \trefs/git-full-send/*)\n\
         \t\t[ -n \"$GFS_ACCEPTED_REFS_FILE\" ] && printf '%s\\n' \"$ref\" >> \"$GFS_ACCEPTED_REFS_FILE\" ;;\n\
         \t*) echo \"git-full-send: refusing ref outside refs/git-full-send/: $ref\" >&2; exit 1 ;;\n\
         \tesac\n\
         done\n",
    );
    assert!(pre_receive_hook().contains(HOOK_REFUSAL_MARKER));
}

fn counts(pkts: u64) -> WireCounts {
    WireCounts {
        total: 100,
        pre_flush: 40,
        pre_flush_pkts: pkts,
        post_flush: 60,
    }
}

fn names(v: &[&str]) -> Vec<String> {
    v.iter().map(|s| s.to_string()).collect()
}

#[test]
fn connections_are_classified_by_what_they_carried() {
    let some = names(&["refs/git-full-send/streams/a/code"]);
    let none = names(&[]);
    let refused = format!("remote: {HOOK_REFUSAL_MARKER} refs/git-full-send/: refs/heads/main");
    for (success, pkts, refs, stderr, outcome) in [
        (true, 1, &some, "", Outcome::Updated),
        (true, 1, &none, "", Outcome::Rejected),
        (true, 0, &none, "", Outcome::NoOp),
        (false, 0, &none, "", Outcome::Probe),
        (false, 1, &none, "", Outcome::Failed),
        (false, 1, &some, "fatal", Outcome::Failed),
        (true, 1, &some, refused.as_str(), Outcome::Rejected),
        (false, 0, &none, refused.as_str(), Outcome::Rejected),
    ] {
        assert_eq!(classify(success, &counts(pkts), refs, stderr), outcome);
    }
}

#[test]
fn outcomes_are_named_and_logged() {
    for (outcome, name, level) in [
        (Outcome::Updated, "updated", LogLevel::Info),
        (Outcome::NoOp, "no_op", LogLevel::Debug),
        (Outcome::Probe, "probe", LogLevel::Debug),
        (Outcome::Rejected, "rejected", LogLevel::Warn),
        (Outcome::Failed, "failed", LogLevel::Warn),
    ] {
        assert_eq!(outcome.as_str(), name);
        assert_eq!(log_level(outcome), level);
    }
}

#[test]
fn accepted_refs_are_listed_once_in_order() {
    assert_eq!(
        read_accepted_refs("b\n  a \r\n\nb\nc"),
        names(&["b", "a", "c"])
    );
    assert!(read_accepted_refs("").is_empty());
}

#[test]
fn a_received_push_is_recorded() {
    let (record, outcome) = received(
        Some(0),
        None,
        &counts(2),
        &counts(7),
        Some("refs/x\nrefs/x\nrefs/y\n"),
        "  \n",
    );
    assert_eq!(outcome, Outcome::Updated);
    assert_eq!(record.outcome, "updated");
    assert_eq!(record.auth_failure, None);
    assert!(record.success);
    assert_eq!(record.exit_code, Some(0));
    assert_eq!(record.signal, None);
    assert_eq!(record.inbound.total, 100);
    assert_eq!(record.inbound.commands, 40);
    assert_eq!(record.inbound.command_pkts, 2);
    assert_eq!(record.inbound.pack, 60);
    assert_eq!(record.outbound.advertisement, 40);
    assert_eq!(record.outbound.refs_advertised, 7);
    assert_eq!(record.outbound.report, 60);
    assert_eq!(record.refs_updated, names(&["refs/x", "refs/y"]));
}

#[test]
fn a_prober_that_hangs_up_is_a_probe() {
    let (record, outcome) = received(None, Some(13), &counts(0), &counts(3), None, "");
    assert_eq!(outcome, Outcome::Probe);
    assert_eq!(record.outcome, "probe");
    assert!(!record.success);
    assert_eq!(record.signal, Some(13));
    assert!(record.refs_updated.is_empty());
}

#[test]
fn a_refused_connection_is_recorded_without_a_process() {
    let record = ReceiveRecord::unauthenticated(AuthOutcome::Mismatch);
    assert_eq!(record.outcome, "unauthenticated");
    assert_eq!(record.auth_failure, Some("mismatch"));
    assert!(!record.success);
    assert_eq!(record.exit_code, None);
    assert_eq!(record.inbound.total, 0);
    assert_eq!(record.outbound.total, 0);
    assert!(record.refs_updated.is_empty());
}

#[test]
fn the_exit_fields_agree() {
    let failed = ReceiveRecord::new(
        Outcome::Failed,
        Some(128),
        None,
        &counts(1),
        &counts(1),
        Vec::new(),
    );
    assert!(!failed.success);
    assert_eq!(failed.exit_code, Some(128));
}

#[test]
fn serving_turns_off_gc_and_sets_the_hooks() {
    assert_eq!(
        receive_args("/tmp/hooks"),
        [
            "-c",
            "receive.autogc=false",
            "-c",
            "core.hooksPath=/tmp/hooks",
            "receive-pack",
        ]
    );
}

fn token() -> Token {
    match Token::new("the-real-token-value", "the test") {
        Ok(t) => t,
        Err(_) => panic!("a token"),
    }
}

/// Runs the decisions on what a client sends first.
fn open_with(auth: &Auth, stream: &[u8]) -> Admission {
    let mut at = 0;
    let mut step = auth.start();
    loop {
        step = match step {
            Admission::ReadHeader => {
                at = stream.len().min(4);
                auth.on_header(&stream[..at])
            }
            Admission::ReadPayload(n) => {
                if stream.len() < at + n {
                    auth.on_payload(None)
                } else {
                    auth.on_payload(Some(&stream[at..at + n]))
                }
            }
            other => return other,
        };
    }
}

#[test]
fn a_connection_is_served_only_behind_its_preamble() {
    let auth = Auth::Token(token());
    let mut wire = auth_pkt(&token());
    assert_eq!(open_with(&auth, &wire), Admission::Serve);
    wire.extend_from_slice(b"0000 and more");
    assert_eq!(open_with(&auth, &wire), Admission::Serve);
    for (stream, outcome) in [
        (&b""[..], AuthOutcome::Absent),
        (&b"0"[..], AuthOutcome::Malformed),
        (&b"00"[..], AuthOutcome::Malformed),
        (&b"002"[..], AuthOutcome::Malformed),
        (&b"+021git-full-send-auth-v1 secret\n"[..], AuthOutcome::Malformed),
        (&b"0000"[..], AuthOutcome::Malformed),
        (&b"000ahello\n"[..], AuthOutcome::Malformed),
        (&b"0021git-full-send-auth-v1 secret\n"[..], AuthOutcome::Mismatch),
        (&b"0021git-full"[..], AuthOutcome::Malformed),
    ] {
        assert_eq!(open_with(&auth, stream), Admission::Refuse(outcome));
    }
    assert_eq!(open_with(&Auth::Anonymous, b""), Admission::Serve);
}

/// Serves a connection that sends `stream` and then is served well, and says
/// whether git ran, what was left to it, and what the record says.
fn serve(auth: &Auth, stream: &[u8]) -> (bool, Vec<u8>, Ended) {
    let mut at = 0;
    let mut ran = false;
    let mut connection = Connection::new(auth, "/hooks");
    loop {
        let event = match connection.action() {
            ConnectionAction::ReadHeader => {
                at = stream.len().min(4);
                ConnectionEvent::Header(stream[..at].to_vec())
            }
            ConnectionAction::ReadPayload(n) if stream.len() < at + n => {
                ConnectionEvent::Payload(None)
            }
            ConnectionAction::ReadPayload(n) => {
                at += n;
                ConnectionEvent::Payload(Some(stream[at - n..at].to_vec()))
            }
            ConnectionAction::Serve { args } => {
                assert_eq!(args, receive_args("/hooks"));
                ran = true;
                ConnectionEvent::Served {
                    exit_code: Some(0),
                    signal: None,
                    inbound: counts(1),
                    outbound: counts(7),
                    accepted: Some("refs/x\n".to_string()),
                    stderr: String::new(),
                }
            }
            ConnectionAction::Refuse { bytes } => {
                assert_eq!(Some(bytes), refusal_bytes(AuthOutcome::Absent));
                ConnectionEvent::Refused
            }
            ConnectionAction::Finish | ConnectionAction::Stop => break,
        };
        connection = connection.on_event(event);
    }
    match connection.outcome() {
        Some(Ok(ended)) => (ran, stream[at..].to_vec(), ended),
        _ => panic!("the connection is over"),
    }
}

#[test]
fn git_serves_what_stands_behind_an_accepted_preamble() {
    let auth = Auth::Token(token());
    let mut wire = auth_pkt(&token());
    wire.extend_from_slice(b"00000000 the rest");
    let (ran, rest, ended) = serve(&auth, &wire);
    assert!(ran);
    assert_eq!(rest, b"00000000 the rest");
    assert_eq!(ended.record.outcome, "updated");
    assert_eq!(ended.record.refs_updated, names(&["refs/x"]));
    assert_eq!(ended.level, LogLevel::Info);
}

#[test]
fn a_refused_connection_is_recorded_with_why() {
    let auth = Auth::Token(token());
    for (stream, why) in [
        (&b""[..], "absent"),
        (&b"002"[..], "malformed"),
        (&b"0000"[..], "malformed"),
        (&b"0021git-full-send-auth-v1 secret\n"[..], "mismatch"),
    ] {
        let (ran, _, ended) = serve(&auth, stream);
        assert!(!ran);
        assert_eq!(ended.record.outcome, "unauthenticated");
        assert_eq!(ended.record.auth_failure, Some(why));
        assert_eq!(ended.level, LogLevel::Warn);
    }
}

#[test]
fn without_a_secret_nothing_is_read() {
    let (ran, rest, _) = serve(&Auth::Anonymous, b"0000");
    assert!(ran);
    assert_eq!(rest, b"0000");
    assert!(Connection::new(&Auth::Anonymous, "/hooks").outcome().is_none());
}

#[test]
fn a_connection_that_cannot_be_served_fails_with_why() {
    let fresh = || Connection::new(&Auth::Anonymous, "/hooks");
    let failed = fresh().on_event(ConnectionEvent::NotSpawned("gone".to_string()));
    assert!(matches!(failed.action(), ConnectionAction::Stop));
    match failed.outcome() {
        Some(Err(ServerError::Spawn(source))) => assert_eq!(source, "gone"),
        _ => panic!("nothing was spawned"),
    }
    match fresh().on_event(ConnectionEvent::Broken("reset".to_string())).outcome() {
        Some(Err(ServerError::Io(source))) => assert_eq!(source, "reset"),
        _ => panic!("the connection broke off"),
    }
}

#[test]
fn a_refusal_says_that_authentication_is_required() {
    let sent = match refusal_bytes(AuthOutcome::Absent) {
        Some(bytes) => bytes,
        None => panic!("a refusal"),
    };
    let text = String::from_utf8(sent.clone()).unwrap();
    assert!(text.contains("authentication required"), "{text}");
    assert_eq!(&text[4..8], "ERR ");
    assert_eq!(
        usize::from_str_radix(&text[..4], 16).unwrap(),
        sent.len()
    );
    assert_eq!(refusal_bytes(AuthOutcome::Mismatch), Some(sent));
    assert_eq!(refusal_bytes(AuthOutcome::Accepted), None);
}

#[test]
fn a_server_needs_an_authentication_choice() {
    match listen_auth(None, None, false) {
        Err(e) => {
            let said = e.message();
            for remedy in ["--token-file", "GIT_FULL_SEND_TOKEN", "--allow-anonymous"] {
                assert!(said.contains(remedy), "{said}");
            }
            assert_eq!(
                said,
                "`listen` needs to know who may push: pass `--token-file <PATH>` (or set \
                 `GIT_FULL_SEND_TOKEN`) so pushes must present a shared secret, or \
                 `--allow-anonymous` to accept unauthenticated pushes from anything that can \
                 reach the port. See ADR-0019."
            );
        }
        Ok(_) => panic!("nobody may push by omission"),
    }
    assert!(matches!(listen_auth(None, None, true), Ok(Auth::Anonymous)));
    // An explicit flag beats the environment.
    assert!(matches!(
        listen_auth(None, Some("from-the-environment"), true),
        Ok(Auth::Anonymous)
    ));
    match listen_auth(None, Some("from-the-environment"), false) {
        Ok(Auth::Token(t)) => assert!(t.matches(b"from-the-environment")),
        _ => panic!("a token"),
    }
    let missing = TokenFile {
        path: "/nope".to_string(),
        contents: Err("gone".to_string()),
    };
    match listen_auth(Some(&missing), Some("from-the-environment"), false) {
        Err(ListenAuthError::Secret(AuthError::ReadTokenFile { path, .. })) => {
            assert_eq!(path, "/nope")
        }
        _ => panic!("a missing file is an error"),
    }
}

#[test]
fn a_default_server_has_the_default_bounds() {
    let config = ListenConfig::default();
    assert!(matches!(config.auth, Auth::Anonymous));
    assert_eq!(config.max_connections, 16);
    assert_eq!(config.connection_timeout_ms, 300_000);
    assert_eq!(config.auth_timeout_ms, 10_000);
}

/// More connections arrive than there are slots: never more are served at a time.
#[test]
fn accept_loop_respects_the_concurrency_cap() {
    const MAX: usize = 2;
    const CONNS: usize = 6;
    let mut loop_ = AcceptLoop::new(MAX);
    let mut waiting = CONNS;
    let mut live = 0;
    let mut peak = 0;
    while waiting > 0 || live > 0 {
        match loop_.action() {
            AcceptAction::Accept if waiting > 0 => {
                loop_.on_event(AcceptEvent::Connected);
                waiting -= 1;
                live += 1;
                peak = peak.max(live);
            }
            _ => {
                loop_.on_event(AcceptEvent::Served);
                live -= 1;
            }
        }
    }
    assert!(peak <= MAX, "peak concurrency {peak} exceeded the cap {MAX}");
    assert!(peak >= 1, "the loop never served a connection");
}

#[test]
fn a_stop_drains_what_is_being_served() {
    let mut loop_ = AcceptLoop::new(2);
    assert_eq!(loop_.action(), AcceptAction::Accept);
    loop_.on_event(AcceptEvent::AcceptFailed);
    assert_eq!(loop_.action(), AcceptAction::Accept);
    loop_.on_event(AcceptEvent::Connected);
    loop_.on_event(AcceptEvent::Connected);
    assert_eq!(loop_.action(), AcceptAction::AwaitSlot);
    loop_.on_event(AcceptEvent::Stopped);
    assert_eq!(loop_.action(), AcceptAction::Drain);
    loop_.on_event(AcceptEvent::Served);
    assert_eq!(loop_.action(), AcceptAction::Drain);
    loop_.on_event(AcceptEvent::Served);
    assert_eq!(loop_.action(), AcceptAction::Finish);
    let mut idle = AcceptLoop::new(0);
    assert_eq!(idle.action(), AcceptAction::AwaitSlot);
    idle.on_event(AcceptEvent::Stopped);
    assert_eq!(idle.action(), AcceptAction::Finish);
}
