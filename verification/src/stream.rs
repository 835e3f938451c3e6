//! Which stream a sync uses.
//!
//! An explicit id comes first, then the one that the repository's git config
//! holds, then a fresh one, which is stored so that every later sync of the
//! repository uses it again.

use vstd::prelude::*;

use crate::protocol::{
    is_plain, is_stream_id, law_plain_characters_make_a_stream_id, new_stream_id, StreamId,
    StreamIdError,
};
use crate::text::{
    digit, hexadecimal, is_white, lossy_text, push_hex, push_text, texts, trim_end_of,
    trim_start_of, trim_text, trimmed, utf8_lossy,
};

verus! {

/// The git config key that holds a repository's stream id.
pub const CONFIG_KEY: &'static str = "git-full-send.stream-id";

/// The error of `getrandom`.
#[verifier::external_type_specification]
#[verifier::external_body]
pub struct ExRandomError(getrandom::Error);

/// The reason a stream id could not be resolved or stored.
#[derive(Debug)]
pub enum StreamResolveError {
    /// A requested stream id was malformed.
    Invalid(StreamIdError),
    /// The value stored under [`CONFIG_KEY`] is not a stream id.
    StoredInvalid(StreamIdError),
    /// `git config` could not be run.
    RunGit(String),
    /// `git config` exited in a way that is not documented.
    GitConfig(String),
    /// Drawing random bytes failed.
    Generate(getrandom::Error),
}

impl StreamResolveError {
    /// The text of [`StreamResolveError::message`].
    pub open spec fn text(self) -> Seq<char> {
        match self {
            StreamResolveError::Invalid(e) => e.text(),
            StreamResolveError::StoredInvalid(_) =>
                "the `git-full-send.stream-id` configured for this repository is invalid"@,
            StreamResolveError::RunGit(_) => "could not run `git config`"@,
            StreamResolveError::GitConfig(said) => "`git config` failed: "@ + said@,
            StreamResolveError::Generate(_) => "could not generate a random stream id"@,
        }
    }

    /// What the error says.
    pub fn message(&self) -> (r: String)
        ensures
            r@ == self.text(),
    {
        match self {
            StreamResolveError::Invalid(e) => e.message(),
            StreamResolveError::StoredInvalid(_) =>
                "the `git-full-send.stream-id` configured for this repository is invalid".to_owned(),
            StreamResolveError::RunGit(_) => "could not run `git config`".to_owned(),
            StreamResolveError::GitConfig(said) => {
                let mut out = "`git config` failed: ".to_owned();
                out.append(said.as_str());
                out
            },
            StreamResolveError::Generate(_) => "could not generate a random stream id".to_owned(),
        }
    }
}

/// The arguments of `git` that read the stored stream id. No scope is named,
/// so a value from the global or the system config is honoured.
pub fn read_config_args() -> (r: Vec<String>)
    ensures
        texts(r@) == seq!["config"@, "--get"@, CONFIG_KEY@],
{
    let mut out: Vec<String> = Vec::new();
    push_text(&mut out, "config");
    push_text(&mut out, "--get");
    push_text(&mut out, CONFIG_KEY);
    assert(texts(out@) =~= seq!["config"@, "--get"@, CONFIG_KEY@]);
    out
}

/// The arguments of `git` that store `value` in the repository's own config.
pub fn write_config_args(value: &str) -> (r: Vec<String>)
    ensures
        texts(r@) == seq!["config"@, "--local"@, CONFIG_KEY@, value@],
{
    let mut out: Vec<String> = Vec::new();
    push_text(&mut out, "config");
    push_text(&mut out, "--local");
    push_text(&mut out, CONFIG_KEY);
    push_text(&mut out, value);
    assert(texts(out@) =~= seq!["config"@, "--local"@, CONFIG_KEY@, value@]);
    out
}

/// What [`config_reading`] returns.
pub open spec fn is_config_reading(
    success: bool,
    code: Option<i32>,
    stdout: Seq<char>,
    stderr: Seq<char>,
    r: Result<Option<String>, StreamResolveError>,
) -> bool {
    if success {
        match r {
            Ok(Some(value)) => value@ == trimmed(stdout) && trimmed(stdout).len() > 0,
            Ok(None) => trimmed(stdout).len() == 0,
            Err(_) => false,
        }
    } else if code == Some(1i32) {
        r matches Ok(None)
    } else {
        r matches Err(StreamResolveError::GitConfig(said)) && said@ == trimmed(stderr)
    }
}

/// What a run of `git config --get` says of the stored stream id: the value,
/// or that there is none. The exit code 1 is how git says that the key is not
/// set.
pub fn config_reading(success: bool, code: Option<i32>, stdout: &str, stderr: &str) -> (r: Result<
    Option<String>,
    StreamResolveError,
>)
    ensures
        is_config_reading(success, code, stdout@, stderr@, r),
{
    if success {
        let value = trim_text(stdout);
        if value.as_str().is_empty() {
            return Ok(None);
        }
        return Ok(Some(value));
    }
    match code {
        Some(c) => if c == 1 {
            return Ok(None);
        },
        None => {},
    }
    Err(StreamResolveError::GitConfig(trim_text(stderr)))
}

/// As [`config_reading`], on the output as it came.
pub fn read_config(success: bool, code: Option<i32>, stdout: &[u8], stderr: &[u8]) -> (r: Result<
    Option<String>,
    StreamResolveError,
>)
    ensures
        is_config_reading(success, code, utf8_lossy(stdout@), utf8_lossy(stderr@), r),
{
    let out = lossy_text(stdout);
    let err = lossy_text(stderr);
    config_reading(success, code, out.as_str(), err.as_str())
}

/// What storing the stream id comes to, by how `git config --local` ended.
pub open spec fn is_config_writing(
    success: bool,
    stderr: Seq<char>,
    r: Result<(), StreamResolveError>,
) -> bool {
    match r {
        Ok(_) => success,
        Err(StreamResolveError::GitConfig(said)) => !success && said@ == trimmed(stderr),
        Err(_) => false,
    }
}

/// Whether storing the stream id worked, by how `git config --local` ended.
pub fn write_config_result(success: bool, stderr: &str) -> (r: Result<(), StreamResolveError>)
    ensures
        is_config_writing(success, stderr@, r),
{
    if success {
        Ok(())
    } else {
        Err(StreamResolveError::GitConfig(trim_text(stderr)))
    }
}

/// Whether storing the stream id worked, with what git printed as it came.
pub fn write_config(success: bool, stderr: &[u8]) -> (r: Result<(), StreamResolveError>)
    ensures
        is_config_writing(success, utf8_lossy(stderr@), r),
{
    let err = lossy_text(stderr);
    write_config_result(success, err.as_str())
}

/// Two hexadecimal digits for each byte.
pub open spec fn hex_of_bytes(bytes: Seq<u8>) -> Seq<char>
    decreases bytes.len(),
{
    if bytes.len() == 0 {
        Seq::empty()
    } else {
        hex_of_bytes(bytes.drop_last()) + hexadecimal(bytes.last() as int, 2)
    }
}

proof fn lemma_hex_of_bytes(bytes: Seq<u8>)
    ensures
        hex_of_bytes(bytes).len() == 2 * bytes.len(),
        forall|i: int|
            0 <= i < hex_of_bytes(bytes).len() ==> is_plain(#[trigger] hex_of_bytes(bytes)[i]),
    decreases bytes.len(),
{
    if bytes.len() > 0 {
        lemma_hex_of_bytes(bytes.drop_last());
        reveal_with_fuel(hexadecimal, 3);
        let b = bytes.last() as int;
        let pair = hexadecimal(b, 2);
        assert(pair =~= seq![digit((b / 16) % 16), digit(b % 16)]);
        let whole = hex_of_bytes(bytes);
        let front = hex_of_bytes(bytes.drop_last());
        assert forall|i: int| 0 <= i < whole.len() implies is_plain(#[trigger] whole[i]) by {
            if i < front.len() {
                assert(whole[i] == front[i]);
            } else {
                assert(whole[i] == pair[i - front.len()]);
            }
        }
    }
}

/// The stream id that these random bytes give: their hexadecimal digits.
pub fn generated_id(bytes: &[u8; 8]) -> (r: Result<StreamId, StreamIdError>)
    ensures
        r matches Ok(id) && id@ == hex_of_bytes(bytes@),
{
    let mut text = String::new();
    let mut i: usize = 0;
    proof {
        assert(bytes@.take(0) =~= Seq::<u8>::empty());
    }
    while i < 8
        invariant
            i <= 8,
            text@ == hex_of_bytes(bytes@.take(i as int)),
        decreases 8 - i,
    {
        push_hex(&mut text, bytes[i] as u64, 2);
        proof {
            let next = bytes@.take(i + 1);
            assert(next.drop_last() =~= bytes@.take(i as int));
            assert(next.last() == bytes@[i as int]);
        }
        i += 1;
    }
    proof {
        assert(bytes@.take(8) =~= bytes@);
        lemma_hex_of_bytes(bytes@);
        law_plain_characters_make_a_stream_id(text@);
    }
    StreamId::new(text.as_str())
}

/// `getrandom::fill`: eight bytes from the system's random number generator,
/// which may fail. Nothing is known of them.
#[verifier::external_body]
fn random_bytes() -> (r: Result<[u8; 8], getrandom::Error>) {
    let mut bytes = [0u8; 8];
    getrandom::fill(&mut bytes).map(|_| bytes)
}

/// Whether `id` is the id that some eight bytes give.
pub open spec fn is_generated(id: Seq<char>) -> bool {
    exists|bytes: Seq<u8>| bytes.len() == 8 && id == #[trigger] hex_of_bytes(bytes)
}

/// A fresh stream id: the hexadecimal digits of eight random bytes.
pub fn generate() -> (r: Result<StreamId, StreamResolveError>)
    ensures
        match r {
            Ok(id) => is_generated(id@),
            Err(e) => e is Generate,
        },
{
    match random_bytes() {
        Ok(bytes) => match generated_id(&bytes) {
            Ok(id) => {
                assert(bytes@.len() == 8 && id@ == hex_of_bytes(bytes@));
                Ok(id)
            },
            Err(e) => Err(StreamResolveError::Invalid(e)),
        },
        Err(e) => Err(StreamResolveError::Generate(e)),
    }
}

/// The stream of a sync.
pub struct Resolution {
    /// Its id.
    pub id: StreamId,
    /// Whether the id is fresh and has to be stored in the repository's
    /// config.
    pub persist: bool,
}

/// What [`resolve_stream`] returns.
pub open spec fn is_resolution(
    requested: Option<StreamId>,
    stored: Option<String>,
    r: Result<Resolution, StreamResolveError>,
) -> bool {
    match requested {
        Some(id) => r matches Ok(found) && found.id@ == id@ && !found.persist,
        None => match stored {
            Some(value) => match r {
                Ok(found) => new_stream_id(value@, Ok(found.id)) && !found.persist,
                Err(StreamResolveError::StoredInvalid(e)) => new_stream_id(value@, Err(e)),
                Err(_) => false,
            },
            None => match r {
                Ok(found) => is_generated(found.id@) && found.persist,
                Err(e) => e is Generate,
            },
        },
    }
}

/// Resolves the stream of a sync from the id that was asked for and, where none
/// was, from the stored one.
///
/// Where there is neither, a fresh id is drawn, which the caller stores.
pub fn resolve_stream(requested: Option<StreamId>, stored: Option<String>) -> (r: Result<
    Resolution,
    StreamResolveError,
>)
    ensures
        is_resolution(requested, stored, r),
{
    match requested {
        Some(id) => Ok(Resolution { id, persist: false }),
        None => match stored {
            Some(value) => match StreamId::new(value.as_str()) {
                Ok(id) => Ok(Resolution { id, persist: false }),
                Err(e) => Err(StreamResolveError::StoredInvalid(e)),
            },
            None => match generate() {
                Ok(id) => Ok(Resolution { id, persist: true }),
                Err(e) => Err(e),
            },
        },
    }
}

/// A fresh id is a stream id of sixteen characters.
pub proof fn law_a_generated_id_is_a_stream_id(id: Seq<char>)
    requires
        is_generated(id),
    ensures
        is_stream_id(id),
        id.len() == 16,
{
    let bytes = choose|bytes: Seq<u8>| bytes.len() == 8 && id == #[trigger] hex_of_bytes(bytes);
    lemma_hex_of_bytes(bytes);
    law_plain_characters_make_a_stream_id(id);
}

/// An id that is stored is used again: what git prints of it, with a line feed
/// behind it, is read as that id, which is a stream id still. It must not begin
/// or end with white space, which reading drops.
pub proof fn law_a_stored_id_is_used_again(
    id: Seq<char>,
    stderr: Seq<char>,
    read: Result<Option<String>, StreamResolveError>,
    made: Result<StreamId, StreamIdError>,
)
    requires
        is_stream_id(id),
        !is_white(id[0]),
        !is_white(id.last()),
        is_config_reading(true, Some(0i32), id.push('\n'), stderr, read),
        new_stream_id(id, made),
    ensures
        read matches Ok(Some(value)) && value@ == id,
        made matches Ok(stream) && stream@ == id,
{
    let line = id.push('\n');
    assert(line[0] == id[0]);
    assert(trim_start_of(line) == line);
    assert(line.last() == '\n');
    assert(line.drop_last() =~= id);
    assert(trim_end_of(line) == trim_end_of(id));
}

/// A fresh id does not begin or end with white space, so that it is used again
/// once it was stored.
pub proof fn law_a_fresh_id_can_be_stored(id: Seq<char>)
    requires
        is_generated(id),
    ensures
        !is_white(id[0]),
        !is_white(id.last()),
{
    let bytes = choose|bytes: Seq<u8>| bytes.len() == 8 && id == #[trigger] hex_of_bytes(bytes);
    lemma_hex_of_bytes(bytes);
    assert(is_plain(id[0]));
    assert(is_plain(id[id.len() - 1]));
}

/// Reading the stored id gives what git printed between white space. It is an
/// ordinary answer that none is stored: git exits with one, or prints nothing. Any
/// other exit is an error that says what git said.
pub proof fn law_a_stored_id_is_what_git_prints(
    success: bool,
    code: Option<i32>,
    stdout: Seq<char>,
    stderr: Seq<char>,
    r: Result<Option<String>, StreamResolveError>,
)
    requires
        is_config_reading(success, code, stdout, stderr, r),
    ensures
        r matches Ok(Some(value)) ==> success && value@ == trimmed(stdout) && value@.len() > 0,
        (r matches Ok(None)) <==> success && trimmed(stdout).len() == 0 || !success && code == Some(
            1i32,
        ),
        r is Err <==> !success && code != Some(1i32),
        r matches Err(e) ==> e matches StreamResolveError::GitConfig(said) && said@ == trimmed(
            stderr,
        ),
{
}

/// An id that is asked for comes first and is not stored; then the stored one, as
/// it is or as the error that it makes; then a fresh one, which is stored.
pub proof fn law_the_id_that_is_asked_for_comes_first(
    requested: Option<StreamId>,
    stored: Option<String>,
    r: Result<Resolution, StreamResolveError>,
)
    requires
        is_resolution(requested, stored, r),
    ensures
        r matches Ok(found) ==> (found.persist <==> requested is None && stored is None),
        r matches Ok(found) ==> found.id@ == (if let Some(id) = requested {
            id@
        } else if let Some(value) = stored {
            value@
        } else {
            found.id@
        }),
        r matches Ok(found) ==> found.persist ==> is_generated(found.id@),
        requested is Some ==> r is Ok,
        requested is None && stored is Some ==> (r is Ok <==> is_stream_id(stored->0@)),
        r matches Err(e) ==> (e is StoredInvalid <==> stored is Some) && (e is Generate
            <==> stored is None),
{
}

/// Whether a character is the lower-case hexadecimal digit for `v`.
pub open spec fn is_lower_hex(c: char, v: int) -> bool {
    ||| 0 <= v <= 9 && c as int == '0' as int + v
    ||| 10 <= v <= 15 && c as int == 'a' as int + v - 10
}

/// A fresh id spells its bytes out, two lower-case hexadecimal digits each, so
/// that different bytes make different ids.
pub proof fn law_an_id_spells_its_bytes_out(bytes: Seq<u8>, i: int)
    requires
        0 <= i < bytes.len(),
    ensures
        hex_of_bytes(bytes).len() == 2 * bytes.len(),
        is_lower_hex(hex_of_bytes(bytes)[2 * i], bytes[i] as int / 16),
        is_lower_hex(hex_of_bytes(bytes)[2 * i + 1], bytes[i] as int % 16),
    decreases bytes.len(),
{
    lemma_hex_of_bytes(bytes);
    lemma_hex_of_bytes(bytes.drop_last());
    if i < bytes.len() - 1 {
        law_an_id_spells_its_bytes_out(bytes.drop_last(), i);
    } else {
        let b = bytes.last() as int;
        reveal_with_fuel(hexadecimal, 3);
        assert(hexadecimal(b, 2) =~= seq![digit(b / 16 % 16), digit(b % 16)]);
        assert(hex_of_bytes(bytes)[2 * i] == hexadecimal(b, 2)[0]);
        assert(hex_of_bytes(bytes)[2 * i + 1] == hexadecimal(b, 2)[1]);
    }
}

/// An id is stored exactly where git says that it succeeded; else what git said,
/// without the white space around it, is the error.
pub proof fn law_an_id_is_stored_where_git_succeeds(
    success: bool,
    stderr: Seq<char>,
    r: Result<(), StreamResolveError>,
)
    requires
        is_config_writing(success, stderr, r),
    ensures
        r is Ok <==> success,
        r matches Err(e) ==> e matches StreamResolveError::GitConfig(said) && said@ == trimmed(
            stderr,
        ),
{
}

} // verus!
