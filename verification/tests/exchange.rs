//! Pushes and probes, step by step.

use git_full_send::auth::{auth_pkt, Token};
use git_full_send::listen::{received, Outcome};
use git_full_send::pktline::{FlushSplit, WireCounts};
use git_full_send::probe::{Probe, ProbeAction, ProbeError, ProbeEvent};
use git_full_send::push::{
    push_args, DeltaPolicy, Push, PushAction, PushError, PushEvent, PushWire,
};

fn token() -> Token {
    match Token::new("the-real-token-value", "the test") {
        Ok(t) => t,
        Err(_) => panic!("a token"),
    }
}

fn names() -> Vec<String> {
    vec!["refs/git-full-send/streams/a/code".to_string()]
}

/// What a push that git ends so writes ahead of git, and how it comes out.
fn push(auth: Option<&Token>, success: bool) -> (Vec<u8>, Result<PushWire, PushError>) {
    let mut written = Vec::new();
    let mut push = Push::new("h:1", &names(), DeltaPolicy::Thin, auth);
    loop {
        let event = match push.action() {
            PushAction::Connect { remote } => {
                assert_eq!(remote, "h:1");
                assert!(written.is_empty());
                PushEvent::Connected
            }
            PushAction::Send { bytes } => {
                written.extend(bytes);
                PushEvent::Sent
            }
            PushAction::Reserve => PushEvent::Reserved { in_fd: 7, out_fd: 8 },
            PushAction::Run { args } => {
                assert_eq!(args, push_args(&names(), DeltaPolicy::Thin, 7, 8));
                PushEvent::Exited {
                    success,
                    status: "exit status: 1".to_string(),
                    stderr: b" no\xff\n".to_vec(),
                    sent: WireCounts { total: 9, ..WireCounts::default() },
                    received: WireCounts::default(),
                }
            }
            PushAction::Finish | PushAction::Stop => break,
        };
        push = push.on_event(event);
    }
    match push.outcome() {
        Some(outcome) => (written, outcome),
        None => panic!("the push is over"),
    }
}

#[test]
fn git_pushes_behind_the_preamble() {
    let (written, outcome) = push(Some(&token()), true);
    assert_eq!(written, auth_pkt(&token()));
    match outcome {
        Ok(wire) => assert_eq!(wire.sent.total, 9),
        Err(e) => panic!("{}", e.message()),
    }
    let (written, _) = push(None, true);
    assert!(written.is_empty());
}

#[test]
fn a_push_that_git_fails_says_what_git_said() {
    match push(None, false).1 {
        Err(e) => assert_eq!(
            e.message(),
            "`git push` failed (exit status: 1): no\u{fffd}"
        ),
        Ok(_) => panic!("git failed"),
    }
}

#[test]
fn a_push_without_a_server_fails() {
    let fresh = Push::new("h:1", &names(), DeltaPolicy::WholeObject, None);
    let failed = fresh.on_event(PushEvent::Failed("refused".to_string()));
    assert!(matches!(failed.action(), PushAction::Stop));
    match failed.outcome() {
        Some(Err(PushError::Connect { remote, source })) => {
            assert_eq!(remote, "h:1");
            assert_eq!(source, "refused");
        }
        _ => panic!("there is no server"),
    }
    let fresh = Push::new("h:1", &names(), DeltaPolicy::WholeObject, None);
    assert!(fresh.outcome().is_none());
}

#[test]
fn the_step_of_a_push_that_fails_decides_the_error() {
    let fails = |push: Push| push.on_event(PushEvent::Failed("gone".to_string())).outcome();
    let connected = |auth: Option<&Token>| {
        Push::new("h:1", &names(), DeltaPolicy::Thin, auth).on_event(PushEvent::Connected)
    };
    let running = || connected(None).on_event(PushEvent::Reserved { in_fd: 7, out_fd: 8 });
    for push in [connected(Some(&token())), connected(None)] {
        match fails(push) {
            Some(Err(PushError::Io(source))) => assert_eq!(source, "gone"),
            _ => panic!("the connection broke off"),
        }
    }
    match fails(running()) {
        Some(Err(PushError::Spawn(source))) => assert_eq!(source, "gone"),
        _ => panic!("git did not start"),
    }
    match running().on_event(PushEvent::Broken("reset".to_string())).outcome() {
        Some(Err(PushError::Io(source))) => assert_eq!(source, "reset"),
        _ => panic!("the pumps broke off"),
    }
}

/// Probes a server that sends `stream`, and gives what was written to it.
fn probe(auth: Option<&Token>, stream: &[u8]) -> (Vec<u8>, Probe) {
    let mut at = 0;
    let mut written = Vec::new();
    let mut probe = Probe::new("h:1", auth);
    loop {
        let event = match probe.action() {
            ProbeAction::Connect { .. } => ProbeEvent::Connected,
            ProbeAction::Send { bytes } => {
                written.extend(bytes);
                ProbeEvent::Sent
            }
            ProbeAction::ReadHeader if stream.len() < at + 4 => ProbeEvent::Header(None),
            ProbeAction::ReadHeader => {
                at += 4;
                let h = &stream[at - 4..at];
                ProbeEvent::Header(Some([h[0], h[1], h[2], h[3]]))
            }
            ProbeAction::ReadPayload(n) if stream.len() < at + n => {
                ProbeEvent::Failed("unexpected end".to_string())
            }
            ProbeAction::ReadPayload(n) => {
                at += n;
                ProbeEvent::Payload(stream[at - n..at].to_vec())
            }
            ProbeAction::Complete { bytes } => {
                written.extend(bytes);
                ProbeEvent::Sent
            }
            ProbeAction::Finish | ProbeAction::Stop => return (written, probe),
        };
        probe = probe.on_event(event);
    }
}

fn pkt(payload: &str) -> Vec<u8> {
    format!("{:04x}{payload}", payload.len() + 4).into_bytes()
}

#[test]
fn a_probe_completes_the_conversation() {
    let mut stream = pkt("1234 refs/heads/main\0caps");
    stream.extend(pkt("1234 refs/git-full-send/streams/a/code\n"));
    stream.extend_from_slice(b"0000");
    let (written, done) = probe(None, &stream);
    assert_eq!(written, b"0000");
    match done.outcome() {
        Some(Ok(report)) => {
            assert_eq!(report.remote, "h:1");
            assert_eq!(report.advertisement_bytes, stream.len() as u64);
            assert_eq!(report.refs_advertised, 2);
            assert_eq!(report.refs_ours, 1);
        }
        _ => panic!("a server answered"),
    }
    let (written, _) = probe(Some(&token()), &stream);
    let mut expected = auth_pkt(&token());
    expected.extend_from_slice(b"0000");
    assert_eq!(written, expected);
}

#[test]
fn a_probe_that_nothing_answers_sends_no_flush() {
    let (written, failed) = probe(None, b"");
    assert!(written.is_empty());
    assert!(matches!(
        failed.outcome(),
        Some(Err(ProbeError::NotReceivePack { .. }))
    ));
    let (_, failed) = probe(None, b"0010abc");
    match failed.outcome() {
        Some(Err(ProbeError::Exchange { remote, source })) => {
            assert_eq!(remote, "h:1");
            assert_eq!(source, "unexpected end");
        }
        _ => panic!("the advertisement breaks off"),
    }
    let failed = Probe::new("h:1", None).on_event(ProbeEvent::Failed("refused".to_string()));
    match failed.outcome() {
        Some(Err(ProbeError::Connect { remote, source })) => {
            assert_eq!(remote, "h:1");
            assert_eq!(source, "refused");
        }
        _ => panic!("there is no server"),
    }
}

#[test]
fn what_is_not_framed_is_not_receive_pack() {
    let mut late = pkt("1234 refs/heads/main\0caps");
    late.extend_from_slice(b"+004and more");
    for stream in [&b"HTTP/1.1 400 Bad Request\r\n"[..], &b"SSH-2.0"[..], &late] {
        let (written, failed) = probe(None, stream);
        assert!(written.is_empty());
        match failed.outcome() {
            Some(Err(ProbeError::NotReceivePack { remote })) => assert_eq!(remote, "h:1"),
            _ => panic!("something else answered"),
        }
    }
}

#[test]
fn a_probe_is_a_no_op_to_the_server() {
    let (written, _) = probe(None, b"0000");
    let mut split = FlushSplit::new();
    split.feed(&written);
    let (record, outcome) =
        received(Some(0), None, &split.counts(), &WireCounts::default(), Some(""), "");
    assert_eq!(outcome, Outcome::NoOp);
    assert_eq!(record.outcome, "no_op");
}
