//! Streams, their ids and their refs.

use git_full_send::protocol::{
    code_ref, extra_ref, sent_extra_ref, sent_ref, stream_prefix, ProtocolError, StreamId,
    StreamIdError, DEFAULT_AUTH_TIMEOUT_SECS, DEFAULT_CONNECTION_TIMEOUT_SECS,
    DEFAULT_LISTEN_ADDR, DEFAULT_MAX_CONNECTIONS, REF_NAMESPACE, STREAMS_PREFIX,
};
use git_full_send::stream::{
    config_reading, generate, generated_id, read_config, read_config_args, resolve_stream,
    write_config, write_config_args, write_config_result, StreamResolveError, CONFIG_KEY,
};

#[test]
fn code_ref_is_under_the_namespace() {
    let stream = StreamId::new("test").unwrap();
    assert!(code_ref(&stream).starts_with(REF_NAMESPACE));
}

#[test]
fn extra_ref_is_under_the_namespace() {
    let stream = StreamId::new("test").unwrap();
    assert!(extra_ref(&stream).starts_with(REF_NAMESPACE));
}

#[test]
fn sent_ref_is_under_the_namespace() {
    let stream = StreamId::new("test").unwrap();
    assert!(sent_ref(&stream).starts_with(REF_NAMESPACE));
}

#[test]
fn refs_live_under_the_namespace_and_prefix() {
    let id = StreamId::new("laptop").unwrap();
    assert!(code_ref(&id).starts_with(STREAMS_PREFIX));
    assert!(sent_ref(&id).starts_with(STREAMS_PREFIX));
    assert!(extra_ref(&id).starts_with(STREAMS_PREFIX));
    assert!(sent_extra_ref(&id).starts_with(STREAMS_PREFIX));
    assert!(STREAMS_PREFIX.starts_with(REF_NAMESPACE));
    assert_eq!(code_ref(&id), "refs/git-full-send/streams/laptop/code");
    assert_eq!(sent_ref(&id), "refs/git-full-send/streams/laptop/sent/code");
    assert_eq!(extra_ref(&id), "refs/git-full-send/streams/laptop/extra");
    assert_eq!(
        sent_extra_ref(&id),
        "refs/git-full-send/streams/laptop/sent/extra"
    );
}

#[test]
fn stream_prefix_bounds_every_ref_at_a_path_segment() {
    let id = StreamId::new("laptop").unwrap();
    let prefix = stream_prefix(&id);
    assert_eq!(prefix, "refs/git-full-send/streams/laptop/");
    // The trailing slash is what bounds a deletion by prefix.
    assert!(prefix.ends_with('/'));
    // Every ref of the stream sits beneath the prefix...
    for r in [
        code_ref(&id),
        sent_ref(&id),
        extra_ref(&id),
        sent_extra_ref(&id),
    ] {
        assert!(r.starts_with(&prefix), "`{r}` is under `{prefix}`");
    }
    // ...while a stream that shares a part of the name does not.
    let sibling = StreamId::new("laptop-2").unwrap();
    assert!(!code_ref(&sibling).starts_with(&prefix));
}

#[test]
fn branch_shaped_ids_with_slashes_are_accepted_and_round_trip() {
    let id = StreamId::new("feature/foo").unwrap();
    assert_eq!(id.as_str(), "feature/foo");
    assert_eq!(code_ref(&id), "refs/git-full-send/streams/feature/foo/code");
}

#[test]
fn invalid_ids_are_rejected() {
    assert!(matches!(StreamId::new(""), Err(StreamIdError::Empty)));
    for bad in [
        "/leading",
        "trailing/",
        "a//b",
        "a..b",
        "has space",
        "star*",
        "ref@{x",
    ] {
        assert!(
            matches!(StreamId::new(bad), Err(StreamIdError::Invalid { .. })),
            "expected `{bad}` to be rejected"
        );
    }
}

/// What git forbids in the name of a ref, character by character and in pairs.
#[test]
fn ids_follow_the_rules_of_ref_names() {
    for bad in [
        "a~b", "a^b", "a:b", "a?b", "a[b", "a\\b", "a\tb", "a\u{7f}b", ".a", "a/.b", "a.lock",
        "a.lock/b", "a.", "a/b.", "@{", "x@{y", "..",
    ] {
        let rejected = StreamId::new(bad);
        // A dot before the slash of `/code` is allowed, one behind a slash is not.
        let expected = bad == "a." || bad == "a/b.";
        assert_eq!(rejected.is_ok(), expected, "`{bad}`");
    }
    for good in ["a", "a-b", "a_b", "a.b", "1", "@", "a@b", "ü", "a{b}", "a,b", "a!"] {
        assert!(StreamId::new(good).is_ok(), "`{good}`");
    }
}

#[test]
fn messages_of_id_errors() {
    assert_eq!(StreamIdError::Empty.message(), "stream id must not be empty");
    match StreamId::new("a//b") {
        Err(e) => {
            let said = e.message();
            assert!(
                said.starts_with("invalid stream id `a//b`: must be a valid Git ref path ("),
                "{said}"
            );
            assert!(said.ends_with(')'));
            assert!(said.len() > "invalid stream id `a//b`: must be a valid Git ref path ()".len());
        }
        Ok(_) => panic!("`a//b` is no id"),
    }
    assert_eq!(
        ProtocolError::Protocol("odd".to_string()).message(),
        "protocol error: odd"
    );
}

#[test]
fn a_clone_is_the_same_stream() {
    let id = StreamId::new("feature/foo").unwrap();
    assert_eq!(id.clone(), id);
    assert_ne!(id, StreamId::new("feature").unwrap());
}

#[test]
fn defaults_are_what_operators_rely_on() {
    assert_eq!(DEFAULT_LISTEN_ADDR, "127.0.0.1:9419");
    assert_eq!(DEFAULT_MAX_CONNECTIONS, 16);
    assert_eq!(DEFAULT_CONNECTION_TIMEOUT_SECS, 300);
    assert_eq!(DEFAULT_AUTH_TIMEOUT_SECS, 10);
}

#[test]
fn explicit_id_wins_and_does_not_persist() {
    let id = StreamId::new("explicit").unwrap();
    let resolved = resolve_stream(Some(id.clone()), None).unwrap();
    assert_eq!(resolved.id, id);
    assert!(!resolved.persist);
    let resolved = resolve_stream(Some(id.clone()), Some("configured".to_string())).unwrap();
    assert_eq!(resolved.id, id);
    assert!(!resolved.persist);
}

#[test]
fn generated_default_is_persisted_and_reused() {
    let first = resolve_stream(None, None).unwrap();
    // It is to be stored...
    assert!(first.persist);
    assert_eq!(first.id.as_str().len(), 16);
    assert!(first.id.as_str().chars().all(|c| c.is_ascii_hexdigit()));
    // ...and is used again once it was.
    let second = resolve_stream(None, Some(first.id.as_str().to_string())).unwrap();
    assert_eq!(first.id, second.id);
    assert!(!second.persist);
}

#[test]
fn configured_id_is_used() {
    let stored = read_config(true, Some(0), b"configured\n", b"").unwrap();
    let resolved = resolve_stream(None, stored).unwrap();
    assert_eq!(resolved.id.as_str(), "configured");
}

#[test]
fn invalid_stored_id_is_rejected() {
    let stored = read_config(true, Some(0), b"bad//id\n", b"").unwrap();
    assert!(matches!(
        resolve_stream(None, stored),
        Err(StreamResolveError::StoredInvalid(_))
    ));
}

#[test]
fn random_ids_differ() {
    let a = generate().unwrap();
    let b = generate().unwrap();
    let c = generate().unwrap();
    assert!(a != b || b != c);
}

#[test]
fn an_id_is_the_bytes_in_hexadecimal() {
    let id = generated_id(&[0x00, 0x01, 0x0a, 0x10, 0x7f, 0x80, 0xab, 0xff]).unwrap();
    assert_eq!(id.as_str(), "00010a107f80abff");
}

#[test]
fn an_unset_config_key_is_not_an_error() {
    assert_eq!(config_reading(false, Some(1), "", "").unwrap(), None);
    assert_eq!(config_reading(true, Some(0), "", "").unwrap(), None);
    assert_eq!(config_reading(true, Some(0), "  \n", "").unwrap(), None);
    assert_eq!(
        config_reading(true, Some(0), " x \n", "").unwrap(),
        Some("x".to_string())
    );
    match config_reading(false, Some(128), "", " fatal: bad config \n") {
        Err(StreamResolveError::GitConfig(said)) => assert_eq!(said, "fatal: bad config"),
        _ => panic!("an exit of 128 is an error"),
    }
    assert!(matches!(
        read_config(false, None, b"", b"killed"),
        Err(StreamResolveError::GitConfig(_))
    ));
}

#[test]
fn config_commands_name_the_key() {
    assert_eq!(CONFIG_KEY, "git-full-send.stream-id");
    assert_eq!(read_config_args(), ["config", "--get", CONFIG_KEY]);
    assert_eq!(write_config_args("x"), ["config", "--local", CONFIG_KEY, "x"]);
    assert!(write_config_result(true, "ignored").is_ok());
    match write_config_result(false, " no \n") {
        Err(StreamResolveError::GitConfig(said)) => assert_eq!(said, "no"),
        _ => panic!("a failed write is an error"),
    }
    assert!(write_config(true, b"ignored").is_ok());
    match write_config(false, b"\n no\xff ") {
        Err(StreamResolveError::GitConfig(said)) => assert_eq!(said, "no\u{fffd}"),
        _ => panic!("a failed write is an error"),
    }
}

#[test]
fn messages_of_stream_errors() {
    assert_eq!(
        StreamResolveError::Invalid(StreamIdError::Empty).message(),
        "stream id must not be empty"
    );
    assert_eq!(
        StreamResolveError::StoredInvalid(StreamIdError::Empty).message(),
        "the `git-full-send.stream-id` configured for this repository is invalid"
    );
    assert_eq!(
        StreamResolveError::RunGit("gone".to_string()).message(),
        "could not run `git config`"
    );
    assert!(StreamResolveError::GitConfig("why".to_string())
        .message()
        .contains("why"));
}

#[test]
fn a_stored_id_is_read_back() {
    for id in ["feature/x", "0123456789abcdef", "v1.2-rc_3"] {
        let printed = format!("{id}\n");
        let stored = match read_config(true, Some(0), printed.as_bytes(), b"") {
            Ok(Some(stored)) => stored,
            _ => panic!("a stored id"),
        };
        match resolve_stream(None, Some(stored)) {
            Ok(found) => {
                assert_eq!(found.id.as_str(), id);
                assert!(!found.persist);
            }
            Err(e) => panic!("{}", e.message()),
        }
    }
}
