//! The shared secret and its preamble.

use git_full_send::auth::{
    auth_payload_len, auth_pkt, check_auth_payload, err_pkt, is_exposed, pkt_line, read_auth_pkt,
    AuthError, AuthOutcome, Token, TokenFile, AUTH_PKT_PREFIX, MAX_TOKEN_LEN, TOKEN_ENV,
    WEAK_TOKEN_LEN,
};
use git_full_send::bytes::ByteReader;

fn token(value: &str) -> Token {
    match Token::new(value, "the test") {
        Ok(token) => token,
        Err(e) => panic!("{}", e.message()),
    }
}

#[test]
fn a_token_is_trimmed_and_validated() {
    // A file written by `echo` ends in a newline; that must not be a failure.
    assert!(Token::new("  s3cret-token-value  \n", "the test").is_ok());
    assert!(matches!(
        Token::new("   \n", "the test"),
        Err(AuthError::Empty { .. }),
    ));
    assert!(matches!(
        Token::new("two words", "the test"),
        Err(AuthError::NotPrintable { .. }),
    ));
    assert!(matches!(
        Token::new("has\ttab", "the test"),
        Err(AuthError::NotPrintable { .. }),
    ));
    assert!(matches!(
        Token::new(&"x".repeat(MAX_TOKEN_LEN + 1), "the test"),
        Err(AuthError::TooLong { .. }),
    ));
}

/// The secret must not be printable by accident.
#[test]
fn debug_never_prints_the_secret() {
    let token = token("hunter2-hunter2-hunter2");
    assert_eq!(token.redacted(), "Token(<redacted>)");
    assert!(!format!("{:?}", Some(token.redacted())).contains("hunter2"));
}

#[test]
fn matches_accepts_only_the_exact_secret() {
    let token = token("correct-horse-battery-staple");
    assert!(token.matches(b"correct-horse-battery-staple"));
    assert!(!token.matches(b"correct-horse-battery-stapl")); // shorter
    assert!(!token.matches(b"correct-horse-battery-staple!")); // longer
    assert!(!token.matches(b"correct-horse-battery-stapld")); // last byte
    assert!(!token.matches(b"xorrect-horse-battery-staple")); // first byte
    assert!(!token.matches(b""));
}

#[test]
fn a_preamble_round_trips() {
    let token = token("s3cret-token-value-here");
    let mut wire = auth_pkt(&token);
    // Whatever follows the preamble must be left for `receive-pack`.
    wire.extend_from_slice(b"0000the-rest-of-the-stream");

    let mut reader = ByteReader::new(wire);
    assert_eq!(read_auth_pkt(&mut reader, &token), AuthOutcome::Accepted);

    assert_eq!(reader.rest(), b"0000the-rest-of-the-stream");
}

#[test]
fn a_preamble_is_classified_by_how_it_failed() {
    let expected = token("the-real-token-value");

    let wrong = auth_pkt(&token("not-the-real-token"));
    assert_eq!(
        read_auth_pkt(&mut ByteReader::new(wrong), &expected),
        AuthOutcome::Mismatch,
    );
    // A client that says nothing.
    assert_eq!(
        read_auth_pkt(&mut ByteReader::new(Vec::new()), &expected),
        AuthOutcome::Absent,
    );
    // A flush-pkt is not a preamble.
    assert_eq!(
        read_auth_pkt(&mut ByteReader::new(b"0000".to_vec()), &expected),
        AuthOutcome::Malformed,
    );
    assert_eq!(
        read_auth_pkt(&mut ByteReader::new(b"zzzz".to_vec()), &expected),
        AuthOutcome::Malformed,
    );
    // Well-framed, but some other scheme's line.
    assert_eq!(
        read_auth_pkt(&mut ByteReader::new(pkt_line(b"hello\n")), &expected),
        AuthOutcome::Malformed,
    );
}

/// Every refusal says the same thing.
#[test]
fn refusals_do_not_distinguish_themselves() {
    assert_eq!(AuthOutcome::Accepted.refusal(), None);
    let refusals = [
        AuthOutcome::Mismatch.refusal(),
        AuthOutcome::Malformed.refusal(),
        AuthOutcome::Absent.refusal(),
    ];
    assert!(refusals.iter().all(|r| *r == refusals[0] && r.is_some()));
}

#[test]
fn an_err_pkt_is_framed_as_git_expects() {
    assert_eq!(err_pkt("nope"), b"000dERR nope\n".to_vec());
}

#[test]
fn resolve_reads_the_named_token_file() {
    let file = TokenFile {
        path: "/run/token".to_string(),
        contents: Ok("from-the-file-token\n".to_string()),
    };
    match Token::resolve(Some(&file), Some("from-the-environment")) {
        Ok(Some(resolved)) => assert!(resolved.matches(b"from-the-file-token")),
        _ => panic!("a token"),
    }

    // A missing file is an error, not a silent fall-through to the environment.
    let missing = TokenFile {
        path: "/run/nope".to_string(),
        contents: Err("No such file or directory".to_string()),
    };
    assert!(matches!(
        Token::resolve(Some(&missing), Some("from-the-environment")),
        Err(AuthError::ReadTokenFile { .. }),
    ));
}

#[test]
fn the_environment_gives_a_token_where_no_file_is_named() {
    assert_eq!(TOKEN_ENV, "GIT_FULL_SEND_TOKEN");
    match Token::resolve(None, Some(" from-the-environment ")) {
        Ok(Some(t)) => assert!(t.matches(b"from-the-environment")),
        _ => panic!("a token"),
    }
    assert!(matches!(Token::resolve(None, Some(" \n")), Ok(None)));
    assert!(matches!(Token::resolve(None, None), Ok(None)));
    match Token::resolve(None, Some("two words")) {
        Err(AuthError::NotPrintable { source_desc }) => {
            assert_eq!(source_desc, "$GIT_FULL_SEND_TOKEN")
        }
        _ => panic!("two words are no token"),
    }
}

#[test]
fn an_empty_token_file_is_named_in_the_error() {
    let file = TokenFile {
        path: "/run/token".to_string(),
        contents: Ok(" ".to_string()),
    };
    match Token::from_file(&file) {
        Err(AuthError::Empty { source_desc }) => {
            assert_eq!(source_desc, "the token file `/run/token`")
        }
        _ => panic!("an empty file holds no token"),
    }
}

#[test]
fn a_token_of_the_greatest_length_is_accepted() {
    let longest = "x".repeat(MAX_TOKEN_LEN);
    assert!(token(&longest).matches(longest.as_bytes()));
    match Token::new(&"ü".repeat(MAX_TOKEN_LEN / 2 + 1), "the test") {
        Err(AuthError::TooLong { len, .. }) => assert_eq!(len, MAX_TOKEN_LEN + 2),
        _ => panic!("the length is that of the bytes"),
    }
}

#[test]
fn a_short_token_is_weak() {
    assert!(token("short").is_weak());
    assert!(token(&"x".repeat(WEAK_TOKEN_LEN - 1)).is_weak());
    assert!(!token(&"x".repeat(WEAK_TOKEN_LEN)).is_weak());
}

#[test]
fn a_token_file_that_others_can_read_is_exposed() {
    assert!(!is_exposed(0o100600));
    assert!(!is_exposed(0o400));
    assert!(is_exposed(0o100640));
    assert!(is_exposed(0o100604));
    assert!(is_exposed(0o001));
}

#[test]
fn a_cloned_token_is_the_same_secret() {
    let first = token("s3cret-token-value-here");
    assert!(first.clone().matches(b"s3cret-token-value-here"));
}

#[test]
fn the_preamble_on_the_wire() {
    assert_eq!(AUTH_PKT_PREFIX, "git-full-send-auth-v1 ");
    // Four of the header, the prefix, the secret and a line feed.
    assert_eq!(
        auth_pkt(&token("secret")),
        b"0021git-full-send-auth-v1 secret\n".to_vec()
    );
    assert_eq!(pkt_line(b""), b"0004".to_vec());
}

#[test]
fn the_payload_is_bounded_by_its_header() {
    assert_eq!(auth_payload_len(b"0021"), Some(0x1d));
    assert_eq!(auth_payload_len(b"0000"), None);
    assert_eq!(auth_payload_len(b"0004"), None);
    assert_eq!(auth_payload_len(b"zzzz"), None);
    // Longer than any preamble can be.
    assert_eq!(auth_payload_len(b"ffff"), None);
}

#[test]
fn the_payload_is_judged_with_or_without_its_line_feed() {
    let t = token("secret");
    assert_eq!(
        check_auth_payload(b"git-full-send-auth-v1 secret\n", &t),
        AuthOutcome::Accepted
    );
    assert_eq!(
        check_auth_payload(b"git-full-send-auth-v1 secret", &t),
        AuthOutcome::Accepted
    );
    assert_eq!(
        check_auth_payload(b"git-full-send-auth-v1 other\n", &t),
        AuthOutcome::Mismatch
    );
    assert_eq!(
        check_auth_payload(b"git-full-send-auth-v2 secret\n", &t),
        AuthOutcome::Malformed
    );
}

#[test]
fn a_truncated_preamble_is_malformed() {
    let t = token("secret");
    let mut wire = auth_pkt(&t);
    wire.pop();
    assert_eq!(
        read_auth_pkt(&mut ByteReader::new(wire), &t),
        AuthOutcome::Malformed
    );
    for broken in [&b"0"[..], &b"002"[..], &b"0021"[..], &b"+021"[..]] {
        assert_eq!(
            read_auth_pkt(&mut ByteReader::new(broken.to_vec()), &t),
            AuthOutcome::Malformed
        );
    }
}

#[test]
fn a_preamble_is_absent_where_nothing_came() {
    assert_eq!(
        read_auth_pkt(&mut ByteReader::new(Vec::new()), &token("secret")),
        AuthOutcome::Absent
    );
}

#[test]
fn outcomes_have_stable_names() {
    assert_eq!(AuthOutcome::Accepted.as_str(), "ok");
    assert_eq!(AuthOutcome::Mismatch.as_str(), "mismatch");
    assert_eq!(AuthOutcome::Malformed.as_str(), "malformed");
    assert_eq!(AuthOutcome::Absent.as_str(), "absent");
}

#[test]
fn messages_of_auth_errors() {
    let from = || "the test".to_string();
    let read = AuthError::ReadTokenFile {
        path: "/p".to_string(),
        source: "gone".to_string(),
    };
    for (error, part) in [
        (AuthError::Empty { source_desc: from() }, "the test"),
        (
            AuthError::TooLong {
                source_desc: from(),
                len: 5000,
            },
            "5000",
        ),
        (AuthError::NotPrintable { source_desc: from() }, "the test"),
        (read, "/p"),
    ] {
        let said = error.message();
        assert!(said.contains(part), "{said}");
    }
}
