//! The shared secret that authenticates a push.
//!
//! `receive-pack` speaks first, so the client authenticates in a preamble that
//! it writes the moment the connection is up:
//!
//! ```text
//! client to server   0027git-full-send-auth-v1 <token>\n     (one pkt-line)
//! server             verifies, then spawns receive-pack
//! server to client   ref advertisement, ...
//! ```
//!
//! Everything after the preamble is the raw receive-pack stream. A server that
//! refuses answers with an `ERR` pkt-line and closes.

use vstd::prelude::*;
use vstd::slice::slice_subrange;
use vstd::utf8::encode_utf8;

use crate::bytes::{copy_bytes, starts_with, ByteReader};
use crate::pktline::{
    hex_number, hex_value, law_a_header_is_a_number, opens_with, parse_length, pkt_length,
};
use crate::text::{
    chars_of, decimal, is_control, is_control_char, is_white, is_whitespace,
    law_trimming_takes_white_space_at_the_ends, push_decimal, string_of, trim, trimmed,
};

verus! {

/// Environment variable that holds the shared secret, for commands that are
/// given no `--token-file`.
pub const TOKEN_ENV: &'static str = "GIT_FULL_SEND_TOKEN";

/// What opens the authentication pkt-line.
pub const AUTH_PKT_PREFIX: &'static str = "git-full-send-auth-v1 ";

/// The longest secret, in bytes.
pub const MAX_TOKEN_LEN: usize = 4096;

/// A secret of fewer characters deserves a warning.
pub const WEAK_TOKEN_LEN: usize = 16;

/// The reason a shared secret could not be established.
#[derive(Debug)]
pub enum AuthError {
    /// The token file could not be read.
    ReadTokenFile {
        /// The file.
        path: String,
        /// What the attempt to read it said.
        source: String,
    },
    /// The token was empty.
    Empty {
        /// Where the value came from.
        source_desc: String,
    },
    /// The token held a character that cannot travel in a single pkt-line.
    NotPrintable {
        /// Where the value came from.
        source_desc: String,
    },
    /// The token was longer than [`MAX_TOKEN_LEN`].
    TooLong {
        /// Where the value came from.
        source_desc: String,
        /// Its length in bytes.
        len: usize,
    },
}

impl AuthError {
    /// The text of [`AuthError::message`].
    pub open spec fn text(self) -> Seq<char> {
        match self {
            AuthError::ReadTokenFile { path, source } => "could not read the token file `"@ + path@
                + "`"@,
            AuthError::Empty { source_desc } => "the shared secret from "@ + source_desc@
                + " is empty"@,
            AuthError::NotPrintable { source_desc } => "the shared secret from "@ + source_desc@
                + " contains whitespace or control characters; it must be a single line of printable characters"@,
            AuthError::TooLong { source_desc, len } => "the shared secret from "@ + source_desc@
                + " is "@ + decimal(len as int) + " bytes; the maximum is "@ + decimal(
                MAX_TOKEN_LEN as int,
            ) + " (is this really a token file?)"@,
        }
    }

    /// What the error says.
    pub fn message(&self) -> (r: String)
        ensures
            r@ == self.text(),
    {
        let mut out = String::new();
        proof {
            let e = Seq::<char>::empty();
            assert(forall|s: Seq<char>| #[trigger] (e + s) =~= s);
        }
        match self {
            AuthError::ReadTokenFile { path, source } => {
                out.append("could not read the token file `");
                out.append(path.as_str());
                out.append("`");
            },
            AuthError::Empty { source_desc } => {
                out.append("the shared secret from ");
                out.append(source_desc.as_str());
                out.append(" is empty");
            },
            AuthError::NotPrintable { source_desc } => {
                out.append("the shared secret from ");
                out.append(source_desc.as_str());
                out.append(
                    " contains whitespace or control characters; it must be a single line of printable characters",
                );
            },
            AuthError::TooLong { source_desc, len } => {
                out.append("the shared secret from ");
                out.append(source_desc.as_str());
                out.append(" is ");
                push_decimal(&mut out, *len as u64);
                out.append(" bytes; the maximum is ");
                push_decimal(&mut out, MAX_TOKEN_LEN as u64);
                out.append(" (is this really a token file?)");
            },
        }
        out
    }
}

/// Whether every character of `s` can travel in a single pkt-line.
pub open spec fn is_printable(s: Seq<char>) -> bool {
    forall|i: int| 0 <= i < s.len() ==> !is_white(#[trigger] s[i]) && !is_control_char(s[i])
}

/// Whether `s` can be a shared secret.
pub open spec fn is_secret(s: Seq<char>) -> bool {
    &&& s.len() > 0
    &&& encode_utf8(s).len() <= MAX_TOKEN_LEN
    &&& is_printable(s)
}

/// Whether a secret has so few characters that a warning is due.
pub open spec fn is_weak_secret(s: Seq<char>) -> bool {
    s.len() < WEAK_TOKEN_LEN
}

/// A validated shared secret. Its view is the secret.
///
/// It has no `Debug`, no `Display` and no `PartialEq`: the ways out of it are
/// [`Token::matches`] and [`auth_pkt`].
pub struct Token {
    secret: String,
}

impl View for Token {
    type V = Seq<char>;

    closed spec fn view(&self) -> Seq<char> {
        self.secret@
    }
}

impl Clone for Token {
    fn clone(&self) -> (r: Self)
        ensures
            r@ == self@,
    {
        proof {
            use_type_invariant(self);
        }
        Token { secret: self.secret.clone() }
    }
}

/// `core::hint::black_box` hands its argument back.
pub assume_specification<T>[ core::hint::black_box::<T> ](dummy: T) -> (r: T)
    ensures
        r == dummy,
;

/// What reading the file that `--token-file` names gave.
pub struct TokenFile {
    /// The path, as it is shown.
    pub path: String,
    /// The contents, or what the attempt to read them said.
    pub contents: Result<String, String>,
}

impl Token {
    #[verifier::type_invariant]
    spec fn well_formed(self) -> bool {
        is_secret(self.secret@)
    }

    /// Validates `value` as a shared secret, without the white space around it.
    /// `source_desc` names where it came from.
    pub fn new(value: &str, source_desc: &str) -> (r: Result<Self, AuthError>)
        ensures
            new_token(value@, source_desc@, r),
    {
        let chars = chars_of(value);
        let inner = trim(chars.as_slice());
        if inner.len() == 0 {
            return Err(AuthError::Empty { source_desc: source_desc.to_owned() });
        }
        let secret = string_of(inner);
        let len: usize = secret.as_str().as_bytes().len();
        if len > MAX_TOKEN_LEN {
            return Err(AuthError::TooLong { source_desc: source_desc.to_owned(), len });
        }
        if !all_printable(inner) {
            return Err(AuthError::NotPrintable { source_desc: source_desc.to_owned() });
        }
        Ok(Token { secret })
    }

    /// Validates what reading a token file gave.
    pub fn from_file(file: &TokenFile) -> (r: Result<Self, AuthError>)
        ensures
            file_token(*file, r),
    {
        match &file.contents {
            Ok(contents) => {
                let mut desc = String::new();
                desc.append("the token file `");
                desc.append(file.path.as_str());
                desc.append("`");
                proof {
                    assert(desc@ =~= file_desc(file.path@));
                }
                Self::new(contents.as_str(), desc.as_str())
            },
            Err(source) => Err(
                AuthError::ReadTokenFile { path: file.path.clone(), source: source.clone() },
            ),
        }
    }

    /// The secret of a command: that of the token file if one is given, else
    /// that of the environment variable [`TOKEN_ENV`] if it holds more than
    /// white space, else none.
    pub fn resolve(token_file: Option<&TokenFile>, env: Option<&str>) -> (r: Result<
        Option<Self>,
        AuthError,
    >)
        ensures
            resolved_token(
                match token_file {
                    Some(file) => Some(*file),
                    None => None,
                },
                match env {
                    Some(value) => Some(value@),
                    None => None,
                },
                r,
            ),
    {
        match token_file {
            Some(file) => match Self::from_file(file) {
                Ok(token) => Ok(Some(token)),
                Err(e) => Err(e),
            },
            None => match env {
                Some(value) => {
                    let chars = chars_of(value);
                    if trim(chars.as_slice()).len() == 0 {
                        Ok(None)
                    } else {
                        match Self::new(value, "$GIT_FULL_SEND_TOKEN") {
                            Ok(token) => Ok(Some(token)),
                            Err(e) => Err(e),
                        }
                    }
                },
                None => Ok(None),
            },
        }
    }

    /// Whether the secret has so few characters that a warning is due.
    pub fn is_weak(&self) -> (r: bool)
        ensures
            r == is_weak_secret(self@),
    {
        chars_of(self.secret.as_str()).len() < WEAK_TOKEN_LEN
    }

    /// Whether `presented` is this secret. Every byte is looked at, wherever
    /// the two differ.
    pub fn matches(&self, presented: &[u8]) -> (r: bool)
        ensures
            r == (presented@ == encode_utf8(self@)),
    {
        let expected = self.secret.as_str().as_bytes();
        let mut diff: u8 = if expected.len() != presented.len() {
            1
        } else {
            0
        };
        let shorter: usize = if expected.len() < presented.len() {
            expected.len()
        } else {
            presented.len()
        };
        let mut i: usize = 0;
        while i < shorter
            invariant
                i <= shorter <= expected@.len(),
                shorter <= presented@.len(),
                (diff == 0) == (expected@.len() == presented@.len() && (forall|k: int|
                    0 <= k < i ==> expected@[k] == presented@[k])),
            decreases shorter - i,
        {
            let a: u8 = expected[i];
            let b: u8 = presented[i];
            proof {
                let d: u8 = diff;
                assert(((d | (a ^ b)) == 0) == (d == 0 && a == b)) by (bit_vector);
            }
            diff = diff | (a ^ b);
            i += 1;
        }
        let r = core::hint::black_box(diff) == 0;
        proof {
            if expected@.len() == presented@.len() {
                if forall|k: int| 0 <= k < shorter ==> expected@[k] == presented@[k] {
                    assert(expected@ =~= presented@);
                }
            }
        }
        r
    }

    /// How the token is shown: never by its secret.
    pub fn redacted(&self) -> (r: String)
        ensures
            r@ == "Token(<redacted>)"@,
    {
        "Token(<redacted>)".to_owned()
    }

    fn expose(&self) -> (r: &str)
        ensures
            r@ == self@,
    {
        self.secret.as_str()
    }
}

fn all_printable(cs: &[char]) -> (r: bool)
    ensures
        r == is_printable(cs@),
{
    let mut i: usize = 0;
    while i < cs.len()
        invariant
            i <= cs@.len(),
            forall|k: int| 0 <= k < i ==> !is_white(#[trigger] cs@[k]) && !is_control_char(cs@[k]),
        decreases cs@.len() - i,
    {
        if is_whitespace(cs[i]) || is_control(cs[i]) {
            assert(is_white(cs@[i as int]) || is_control_char(cs@[i as int]));
            return false;
        }
        i += 1;
    }
    true
}

/// How a token file is named in a message.
pub open spec fn file_desc(path: Seq<char>) -> Seq<char> {
    "the token file `"@ + path + "`"@
}

/// What [`Token::new`] returns.
pub open spec fn new_token(
    value: Seq<char>,
    source_desc: Seq<char>,
    r: Result<Token, AuthError>,
) -> bool {
    let secret = trimmed(value);
    match r {
        Ok(token) => is_secret(secret) && token@ == secret,
        Err(AuthError::Empty { source_desc: from }) => secret.len() == 0 && from@ == source_desc,
        Err(AuthError::TooLong { source_desc: from, len }) => secret.len() > 0 && len
            == encode_utf8(secret).len() && len > MAX_TOKEN_LEN && from@ == source_desc,
        Err(AuthError::NotPrintable { source_desc: from }) => secret.len() > 0
            && encode_utf8(secret).len() <= MAX_TOKEN_LEN && !is_printable(secret) && from@
            == source_desc,
        Err(AuthError::ReadTokenFile { .. }) => false,
    }
}

/// What [`Token::from_file`] returns.
pub open spec fn file_token(file: TokenFile, r: Result<Token, AuthError>) -> bool {
    match file.contents {
        Ok(contents) => new_token(contents@, file_desc(file.path@), r),
        Err(said) => match r {
            Err(AuthError::ReadTokenFile { path, source }) => path@ == file.path@ && source@
                == said@,
            _ => false,
        },
    }
}

/// What [`Token::resolve`] returns.
pub open spec fn resolved_token(
    token_file: Option<TokenFile>,
    env: Option<Seq<char>>,
    r: Result<Option<Token>, AuthError>,
) -> bool {
    match token_file {
        Some(file) => match r {
            Ok(Some(token)) => file_token(file, Ok(token)),
            Ok(None) => false,
            Err(e) => file_token(file, Err(e)),
        },
        None => match env {
            Some(value) => if trimmed(value).len() == 0 {
                r matches Ok(None)
            } else {
                match r {
                    Ok(Some(token)) => new_token(
                        value,
                        "$GIT_FULL_SEND_TOKEN"@,
                        Ok(token),
                    ),
                    Ok(None) => false,
                    Err(e) => new_token(value, "$GIT_FULL_SEND_TOKEN"@, Err(e)),
                }
            },
            None => r matches Ok(None),
        },
    }
}

/// Whether these permission bits let anyone but the owner of a file at it.
pub open spec fn exposes(mode: u32) -> bool {
    mode % 0o100 != 0
}

/// Whether a file with these permission bits can be read or written by anyone
/// but its owner, which a token file should not be.
pub fn is_exposed(mode: u32) -> (r: bool)
    ensures
        r == exposes(mode),
{
    proof {
        assert((mode & 0o077 != 0) == (mode % 0o100 != 0)) by (bit_vector);
    }
    mode & 0o077 != 0
}

/// A lower-case hexadecimal digit.
pub open spec fn hex_digit(d: nat) -> u8 {
    if d < 10 {
        (48 + d) as u8
    } else {
        (87 + d) as u8
    }
}

/// `n` in lower-case hexadecimal, filled with zeros to at least `width` digits.
pub open spec fn hex_text(n: nat, width: nat) -> Seq<u8>
    decreases n + width,
{
    if n == 0 && width == 0 {
        Seq::empty()
    } else {
        hex_text(n / 16, if width == 0 { 0 } else { (width - 1) as nat }).push(hex_digit(n % 16))
    }
}

/// A payload behind the four digits that give the length of both.
pub open spec fn framed(payload: Seq<u8>) -> Seq<u8> {
    hex_text(payload.len() + 4, 4) + payload
}

fn hex_header(n: usize, width: usize) -> (r: Vec<u8>)
    ensures
        r@ == hex_text(n as nat, width as nat),
    decreases n + width,
{
    if n == 0 && width == 0 {
        return Vec::new();
    }
    let mut out = hex_header(n / 16, if width == 0 { 0 } else { width - 1 });
    let d: usize = n % 16;
    out.push(if d < 10 { 48 + d as u8 } else { 87 + d as u8 });
    out
}

/// Frames `payload` as a pkt-line.
pub fn pkt_line(payload: &[u8]) -> (r: Vec<u8>)
    requires
        payload@.len() + 4 <= usize::MAX,
    ensures
        r@ == framed(payload@),
{
    let mut out = hex_header(payload.len() + 4, 4);
    out.extend_from_slice(payload);
    assert(out@ =~= framed(payload@));
    out
}

/// The payload of the preamble that presents `secret`.
pub open spec fn preamble_payload(secret: Seq<char>) -> Seq<u8> {
    encode_utf8(AUTH_PKT_PREFIX@) + encode_utf8(secret) + seq![10u8]
}

/// The prefix of a preamble has twenty-two bytes.
pub(crate) proof fn lemma_prefix_len()
    ensures
        encode_utf8(AUTH_PKT_PREFIX@).len() == 22,
{
    reveal_strlit("git-full-send-auth-v1 ");
    let s = AUTH_PKT_PREFIX@;
    assert(s.len() == 22);
    assert(vstd::utf8::is_ascii_chars(s));
    vstd::utf8::is_ascii_chars_encode_utf8(s);
}

/// The authentication preamble for `token`, framed as one pkt-line.
pub fn auth_pkt(token: &Token) -> (r: Vec<u8>)
    ensures
        r@ == framed(preamble_payload(token@)),
{
    proof {
        use_type_invariant(token);
        lemma_prefix_len();
    }
    let mut payload = copy_bytes(AUTH_PKT_PREFIX.as_bytes());
    payload.extend_from_slice(token.expose().as_bytes());
    payload.push(10);
    assert(payload@ =~= preamble_payload(token@));
    pkt_line(payload.as_slice())
}

/// An `ERR` pkt-line that carries `message`.
pub fn err_pkt(message: &str) -> (r: Vec<u8>)
    requires
        encode_utf8(message@).len() + 9 <= usize::MAX,
    ensures
        r@ == framed(encode_utf8("ERR "@) + encode_utf8(message@) + seq![10u8]),
{
    proof {
        reveal_strlit("ERR ");
        assert(vstd::utf8::is_ascii_chars("ERR "@));
        vstd::utf8::is_ascii_chars_encode_utf8("ERR "@);
    }
    let mut payload = copy_bytes("ERR ".as_bytes());
    payload.extend_from_slice(message.as_bytes());
    payload.push(10);
    assert(payload@ =~= encode_utf8("ERR "@) + encode_utf8(message@) + seq![10u8]);
    pkt_line(payload.as_slice())
}

/// What the server made of a client's preamble.
#[derive(Debug, Clone, Copy, PartialEq, Eq, Structural)]
pub enum AuthOutcome {
    /// The presented secret matched.
    Accepted,
    /// A well-formed preamble that carries the wrong secret.
    Mismatch,
    /// Something arrived, but it was not an authentication preamble.
    Malformed,
    /// Nothing arrived before the deadline.
    Absent,
}

impl AuthOutcome {
    /// The message sent back to a refused client, the same for every failure;
    /// `None` when there is nothing to refuse.
    pub fn refusal(self) -> (r: Option<&'static str>)
        ensures
            match r {
                Some(message) => self != AuthOutcome::Accepted && message@
                    == "git-full-send: authentication required (see `listen --token-file`)"@,
                None => self == AuthOutcome::Accepted,
            },
    {
        match self {
            AuthOutcome::Accepted => None,
            _ => Some("git-full-send: authentication required (see `listen --token-file`)"),
        }
    }

    /// The stable name of an outcome.
    pub open spec fn name(self) -> Seq<char> {
        match self {
            AuthOutcome::Accepted => "ok"@,
            AuthOutcome::Mismatch => "mismatch"@,
            AuthOutcome::Malformed => "malformed"@,
            AuthOutcome::Absent => "absent"@,
        }
    }

    /// The stable string for the log line and the metrics record.
    pub fn as_str(self) -> (r: &'static str)
        ensures
            r@ == self.name(),
    {
        match self {
            AuthOutcome::Accepted => "ok",
            AuthOutcome::Mismatch => "mismatch",
            AuthOutcome::Malformed => "malformed",
            AuthOutcome::Absent => "absent",
        }
    }
}

/// The length that the header of a preamble announces, payload and header
/// together, if a preamble can be that long.
pub open spec fn preamble_len(header: Seq<u8>) -> Option<nat> {
    match pkt_length(header) {
        Some(n) => if 5 <= n <= encode_utf8(AUTH_PKT_PREFIX@).len() + MAX_TOKEN_LEN + 6 {
            Some(n)
        } else {
            None
        },
        None => None,
    }
}

/// A payload without the line feed that may end it.
pub open spec fn without_newline(s: Seq<u8>) -> Seq<u8> {
    if s.len() > 0 && s.last() == 10 {
        s.drop_last()
    } else {
        s
    }
}

/// What a payload is, held against the expected secret.
pub open spec fn judged(payload: Seq<u8>, secret: Seq<char>) -> AuthOutcome {
    let prefix = encode_utf8(AUTH_PKT_PREFIX@);
    if !prefix.is_prefix_of(payload) {
        AuthOutcome::Malformed
    } else if without_newline(payload.skip(prefix.len() as int)) == encode_utf8(secret) {
        AuthOutcome::Accepted
    } else {
        AuthOutcome::Mismatch
    }
}

/// What a stream opens with, held against the expected secret. Only where nothing
/// came at all is a preamble absent; one that breaks off is malformed.
pub open spec fn opening(s: Seq<u8>, secret: Seq<char>) -> AuthOutcome {
    if s.len() == 0 {
        AuthOutcome::Absent
    } else if s.len() < 4 {
        AuthOutcome::Malformed
    } else {
        match preamble_len(s.take(4)) {
            Some(n) => if s.len() < n {
                AuthOutcome::Malformed
            } else {
                judged(s.subrange(4, n as int), secret)
            },
            None => AuthOutcome::Malformed,
        }
    }
}

/// What reading a preamble leaves of a stream: everything behind the pkt-line,
/// or behind the header where that announced no preamble.
pub open spec fn behind_opening(s: Seq<u8>) -> Seq<u8> {
    if s.len() < 4 {
        Seq::empty()
    } else {
        match preamble_len(s.take(4)) {
            Some(n) => if s.len() < n {
                Seq::empty()
            } else {
                s.skip(n as int)
            },
            None => s.skip(4),
        }
    }
}

/// How many bytes of payload the header of a preamble announces, or `None`
/// where no preamble has that header.
pub fn auth_payload_len(header: &[u8; 4]) -> (r: Option<usize>)
    ensures
        match r {
            Some(n) => preamble_len(header@) == Some((n + 4) as nat),
            None => preamble_len(header@) is None,
        },
{
    proof {
        lemma_prefix_len();
    }
    match parse_length(header) {
        Some(n) => if 5 <= n && n <= AUTH_PKT_PREFIX.len() + MAX_TOKEN_LEN + 6 {
            Some(n - 4)
        } else {
            None
        },
        None => None,
    }
}

/// Checks the payload of a preamble against `expected`.
pub fn check_auth_payload(payload: &[u8], expected: &Token) -> (r: AuthOutcome)
    ensures
        r == judged(payload@, expected@),
{
    let prefix = AUTH_PKT_PREFIX.as_bytes();
    if !starts_with(payload, prefix) {
        return AuthOutcome::Malformed;
    }
    let mut presented = slice_subrange(payload, prefix.len(), payload.len());
    assert(presented@ =~= payload@.skip(prefix@.len() as int));
    if presented.len() > 0 && presented[presented.len() - 1] == 10 {
        assert(presented@.subrange(0, presented@.len() - 1) =~= presented@.drop_last());
        presented = slice_subrange(presented, 0, presented.len() - 1);
    }
    if expected.matches(presented) {
        AuthOutcome::Accepted
    } else {
        AuthOutcome::Mismatch
    }
}

/// Reads one authentication preamble and checks it against `expected`.
///
/// Exactly the pkt-line is read, so that what follows it is left for
/// `receive-pack`.
pub fn read_auth_pkt(reader: &mut ByteReader, expected: &Token) -> (r: AuthOutcome)
    ensures
        r == opening(old(reader)@, expected@),
        final(reader)@ == behind_opening(old(reader)@),
{
    let ghost s = reader@;
    if reader.is_empty() {
        assert(s =~= Seq::<u8>::empty());
        return AuthOutcome::Absent;
    }
    let head = match reader.read_exact(4) {
        Some(head) => head,
        None => return AuthOutcome::Malformed,
    };
    let header: [u8; 4] = [head[0], head[1], head[2], head[3]];
    assert(header@ =~= s.take(4));
    let len: usize = match auth_payload_len(&header) {
        Some(len) => len,
        None => return AuthOutcome::Malformed,
    };
    let payload = match reader.read_exact(len) {
        Some(payload) => payload,
        None => return AuthOutcome::Malformed,
    };
    proof {
        let n = len + 4;
        assert(s.skip(4).take(len as int) =~= s.subrange(4, n));
        assert(s.skip(4).skip(len as int) =~= s.skip(n));
    }
    check_auth_payload(payload.as_slice(), expected)
}

proof fn lemma_hex_digit(d: nat)
    requires
        d < 16,
    ensures
        hex_value(hex_digit(d)) == Some(d),
{
}

/// The header that announces a length is read back as that length.
pub proof fn law_a_header_announces_its_length(n: nat)
    requires
        n <= 0xffff,
    ensures
        hex_text(n, 4).len() == 4,
        pkt_length(hex_text(n, 4)) == Some(n),
{
    reveal_with_fuel(hex_text, 5);
    reveal_with_fuel(hex_number, 5);
    let a = n / 16;
    let b = a / 16;
    let c = b / 16;
    assert(c / 16 == 0);
    let d0 = seq![hex_digit(c % 16)];
    let d1 = d0.push(hex_digit(b % 16));
    let d2 = d1.push(hex_digit(a % 16));
    let d3 = d2.push(hex_digit(n % 16));
    assert(hex_text(c / 16, 0) =~= Seq::<u8>::empty());
    assert(hex_text(c, 1) =~= d0);
    assert(hex_text(b, 2) =~= d1);
    assert(hex_text(a, 3) =~= d2);
    assert(hex_text(n, 4) =~= d3);
    lemma_hex_digit(c % 16);
    lemma_hex_digit(b % 16);
    lemma_hex_digit(a % 16);
    lemma_hex_digit(n % 16);
    assert(d3.drop_last() =~= d2);
    assert(d2.drop_last() =~= d1);
    assert(d1.drop_last() =~= d0);
    assert(d0.drop_last() =~= Seq::<u8>::empty());
    assert(hex_number(d0) == Some(c % 16));
    assert(hex_number(d1) == Some((c % 16) * 16 + b % 16));
    assert(hex_number(d2) == Some(((c % 16) * 16 + b % 16) * 16 + a % 16));
    assert(hex_number(d3) == Some((((c % 16) * 16 + b % 16) * 16 + a % 16) * 16 + n % 16));
}

proof fn lemma_framed_preamble(secret: Seq<char>, rest: Seq<u8>)
    requires
        is_secret(secret),
    ensures
        ({
            let payload = preamble_payload(secret);
            let s = framed(payload) + rest;
            let n = payload.len() + 4;
            &&& preamble_len(s.take(4)) == Some(n)
            &&& n <= s.len()
            &&& s.subrange(4, n as int) == payload
            &&& s.skip(n as int) == rest
            &&& encode_utf8(AUTH_PKT_PREFIX@).is_prefix_of(payload)
            &&& without_newline(payload.skip(encode_utf8(AUTH_PKT_PREFIX@).len() as int))
                == encode_utf8(secret)
        }),
{
    lemma_prefix_len();
    let prefix = encode_utf8(AUTH_PKT_PREFIX@);
    let payload = preamble_payload(secret);
    let n = payload.len() + 4;
    let s = framed(payload) + rest;
    law_a_header_announces_its_length(n);
    assert(s.take(4) =~= hex_text(n, 4));
    assert(s.subrange(4, n as int) =~= payload);
    assert(s.skip(n as int) =~= rest);
    assert(payload.subrange(0, prefix.len() as int) =~= prefix);
    let tail = payload.skip(prefix.len() as int);
    assert(tail =~= encode_utf8(secret).push(10u8));
    assert(tail.drop_last() =~= encode_utf8(secret));
}

/// A preamble is accepted by the server that expects its secret, and what
/// follows it on the wire is left untouched.
pub proof fn law_a_preamble_round_trips(secret: Seq<char>, rest: Seq<u8>)
    requires
        is_secret(secret),
    ensures
        opening(framed(preamble_payload(secret)) + rest, secret) == AuthOutcome::Accepted,
        behind_opening(framed(preamble_payload(secret)) + rest) == rest,
{
    lemma_framed_preamble(secret, rest);
}

/// A preamble with any other secret is a mismatch.
pub proof fn law_another_secret_is_a_mismatch(
    presented: Seq<char>,
    expected: Seq<char>,
    rest: Seq<u8>,
)
    requires
        is_secret(presented),
        presented != expected,
    ensures
        opening(framed(preamble_payload(presented)) + rest, expected) == AuthOutcome::Mismatch,
{
    lemma_framed_preamble(presented, rest);
    vstd::utf8::encode_utf8_decode_utf8(presented);
    vstd::utf8::encode_utf8_decode_utf8(expected);
}

/// A preamble is absent exactly where nothing came.
pub proof fn law_absent_means_that_nothing_came(s: Seq<u8>, secret: Seq<char>)
    ensures
        opening(s, secret) == AuthOutcome::Absent <==> s.len() == 0,
{
}

/// Nothing but a preamble with the expected secret is accepted.
pub proof fn law_only_the_secret_is_accepted(s: Seq<u8>, secret: Seq<char>)
    requires
        opening(s, secret) == AuthOutcome::Accepted,
    ensures
        exists|n: int|
            4 <= n <= s.len() && (#[trigger] s.subrange(4, n) == preamble_payload(secret)
                || s.subrange(4, n) == preamble_payload(secret).drop_last()),
{
    let prefix = encode_utf8(AUTH_PKT_PREFIX@);
    let n = preamble_len(s.take(4))->0;
    let payload = s.subrange(4, n as int);
    let presented = payload.skip(prefix.len() as int);
    assert(payload =~= prefix + presented);
    if presented.len() > 0 && presented.last() == 10 {
        assert(presented =~= presented.drop_last().push(10));
        assert(payload =~= preamble_payload(secret));
    } else {
        assert(payload =~= preamble_payload(secret).drop_last());
    }
}

/// A shared secret is a line of characters that can be seen, of up to 4096 bytes.
pub proof fn law_a_secret_is_a_line_that_can_be_seen(s: Seq<char>)
    ensures
        is_secret(s) <==> {
            &&& 0 < s.len()
            &&& encode_utf8(s).len() <= 4096
            &&& forall|i: int|
                0 <= i < s.len() ==> !is_white(#[trigger] s[i]) && !is_control_char(s[i])
        },
{
}

/// A value is taken as a secret without the white space around it. It is refused
/// as empty where there is nothing else, as too long above 4096 bytes, and as not
/// printable where white space or a control character is left in it.
pub proof fn law_a_value_is_taken_without_the_space_around_it(
    before: Seq<char>,
    inner: Seq<char>,
    after: Seq<char>,
    desc: Seq<char>,
    r: Result<Token, AuthError>,
)
    requires
        forall|k: int| 0 <= k < before.len() ==> is_white(#[trigger] before[k]),
        forall|k: int| 0 <= k < after.len() ==> is_white(#[trigger] after[k]),
        inner.len() > 0 ==> !is_white(inner[0]) && !is_white(inner.last()),
        new_token(before + inner + after, desc, r),
    ensures
        match r {
            Ok(token) => is_secret(inner) && token@ == inner,
            Err(AuthError::Empty { source_desc }) => inner.len() == 0 && source_desc@ == desc,
            Err(AuthError::TooLong { source_desc, len }) => encode_utf8(inner).len() > 4096 && len
                == encode_utf8(inner).len() && source_desc@ == desc,
            Err(AuthError::NotPrintable { source_desc }) => inner.len() > 0 && encode_utf8(
                inner,
            ).len() <= 4096 && !is_secret(inner) && source_desc@ == desc,
            Err(AuthError::ReadTokenFile { .. }) => false,
        },
{
    let s = before + inner + after;
    let i = before.len() as int;
    let j = i + inner.len();
    assert forall|k: int| 0 <= k < i implies is_white(#[trigger] s[k]) by {
        assert(s[k] == before[k]);
    }
    assert forall|k: int| j <= k < s.len() implies is_white(#[trigger] s[k]) by {
        assert(s[k] == after[k - j]);
    }
    if inner.len() > 0 {
        assert(s[i] == inner[0]);
        assert(s[j - 1] == inner.last());
    }
    law_trimming_takes_white_space_at_the_ends(s, i, j);
    assert(s.subrange(i, j) =~= inner);
}

/// A token file that is given decides alone: the environment is not asked, and
/// its secret is there or an error is. Without one the environment decides, and
/// where that holds nothing but white space there is no secret.
pub proof fn law_a_token_file_comes_before_the_environment(
    file: TokenFile,
    env: Option<Seq<char>>,
    value: Seq<char>,
    r: Result<Option<Token>, AuthError>,
)
    ensures
        resolved_token(Some(file), env, r) ==> match (file.contents, r) {
            (Ok(contents), Ok(found)) => found matches Some(token) && token@ == trimmed(contents@),
            (Ok(contents), Err(e)) => new_token(
                contents@,
                "the token file `"@ + file.path@ + "`"@,
                Err(e),
            ),
            (Err(said), Ok(_)) => false,
            (Err(said), Err(e)) => e matches AuthError::ReadTokenFile { path, source } && path@
                == file.path@ && source@ == said@,
        },
        resolved_token(None, None, r) ==> r matches Ok(None),
        resolved_token(None, Some(value), r) ==> {
            &&& (r matches Ok(None)) <==> trimmed(value).len() == 0
            &&& r matches Ok(Some(token)) ==> token@ == trimmed(value)
            &&& r matches Err(e) ==> new_token(value, "$GIT_FULL_SEND_TOKEN"@, Err(e))
        },
{
}

/// A payload is judged by what it presents behind the word that opens it, with
/// one line feed at its end or without: the secret is accepted, anything else is a
/// mismatch, and a payload that opens otherwise is malformed.
pub proof fn law_a_payload_is_judged_by_what_it_presents(
    payload: Seq<u8>,
    presented: Seq<u8>,
    secret: Seq<char>,
)
    requires
        presented.len() > 0 ==> presented.last() != 10,
    ensures
        payload == encode_utf8("git-full-send-auth-v1 "@) + presented || payload == encode_utf8(
            "git-full-send-auth-v1 "@,
        ) + presented + seq![10u8] ==> judged(payload, secret) == if presented == encode_utf8(
            secret,
        ) {
            AuthOutcome::Accepted
        } else {
            AuthOutcome::Mismatch
        },
        !encode_utf8("git-full-send-auth-v1 "@).is_prefix_of(payload) ==> judged(payload, secret)
            == AuthOutcome::Malformed,
{
    let prefix = encode_utf8("git-full-send-auth-v1 "@);
    let n = prefix.len() as int;
    if payload == prefix + presented {
        assert(payload.subrange(0, n) =~= prefix);
        assert(payload.skip(n) =~= presented);
    }
    if payload == prefix + presented + seq![10u8] {
        assert(payload.subrange(0, n) =~= prefix);
        assert(payload.skip(n) =~= presented.push(10));
        assert(presented.push(10).drop_last() =~= presented);
    }
}

/// Reading a preamble takes the pkt-line that was announced and leaves what is
/// behind it. A header that announces no more than itself, or more than the
/// longest secret needs, is no preamble and is taken alone.
pub proof fn law_exactly_the_preamble_is_read(s: Seq<u8>, n: int, secret: Seq<char>)
    requires
        opens_with(s, n),
    ensures
        5 <= n <= 22 + 4096 + 6 && n <= s.len() ==> behind_opening(s) == s.skip(n) && opening(
            s,
            secret,
        ) == judged(s.subrange(4, n), secret),
        5 <= n <= 22 + 4096 + 6 && s.len() < n ==> behind_opening(s).len() == 0 && opening(
            s,
            secret,
        ) == AuthOutcome::Malformed,
        !(5 <= n <= 22 + 4096 + 6) ==> behind_opening(s) == s.skip(4) && opening(s, secret)
            == AuthOutcome::Malformed,
{
    lemma_prefix_len();
    let header = s.take(4);
    assert(opens_with(header, n));
    law_a_header_is_a_number(header, n as nat);
}

/// A frame starts with four digits that give its length, behind which stands the
/// payload.
pub proof fn law_a_frame_gives_its_length(payload: Seq<u8>)
    requires
        payload.len() + 4 <= 0xffff,
    ensures
        opens_with(framed(payload), framed(payload).len() as int),
        framed(payload).skip(4) == payload,
{
    law_a_header_announces_its_length(payload.len() + 4);
    let header = hex_text(payload.len() + 4, 4);
    law_a_header_is_a_number(header, payload.len() + 4);
    assert(framed(payload).skip(4) =~= payload);
}

/// A file is exposed by any bit that is set for its group or for others, whatever
/// its owner may do.
pub proof fn law_a_file_is_exposed_by_any_bit_for_others(owner: u32, group: u32, others: u32)
    requires
        owner < 0x100_0000,
        group < 8,
        others < 8,
    ensures
        exposes((owner * 64 + group * 8 + others) as u32) <==> group != 0 || others != 0,
{
}

/// A secret is weak below sixteen characters.
pub proof fn law_sixteen_characters_are_not_weak(s: Seq<char>)
    ensures
        is_weak_secret(s) <==> s.len() <= 15,
{
}

} // verus!
