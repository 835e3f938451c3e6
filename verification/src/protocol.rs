//! What both ends agree on: stream ids, the names of refs, and defaults.

use bstr::ByteSlice;
use vstd::prelude::*;

use crate::text::{concat3, part_at};

verus! {

/// The ref namespace that synced refs are confined to.
pub const REF_NAMESPACE: &'static str = "refs/git-full-send/";

/// The prefix beneath which the refs of every stream live.
pub const STREAMS_PREFIX: &'static str = "refs/git-full-send/streams/";

/// The address the server listens on by default: the loopback alone.
pub const DEFAULT_LISTEN_ADDR: &'static str = "127.0.0.1:9419";

/// How many connections are served at a time by default.
pub const DEFAULT_MAX_CONNECTIONS: usize = 16;

/// How long one connection may take by default, in seconds.
pub const DEFAULT_CONNECTION_TIMEOUT_SECS: u64 = 300;

/// How long the server waits for a client's authentication preamble, in
/// seconds.
pub const DEFAULT_AUTH_TIMEOUT_SECS: u64 = 10;

/// The characters that no reference name holds.
pub open spec fn forbidden_in_reference(c: char) -> bool {
    ||| c <= '\u{1f}'
    ||| c == '\u{7f}'
    ||| c == ' '
    ||| c == '~'
    ||| c == '^'
    ||| c == ':'
    ||| c == '?'
    ||| c == '['
    ||| c == '\\'
    ||| c == '*'
}

/// The pairs of characters that no reference name holds in a row: `..`, `/.`,
/// `//` and `@{`.
pub open spec fn forbidden_pair_at(name: Seq<char>, i: int) -> bool {
    let a = name[i];
    let b = name[i + 1];
    (a == '.' && b == '.') || (a == '/' && b == '.') || (a == '/' && b == '/') || (a == '@' && b
        == '{')
}

/// Whether git allows `name`, which holds a slash, as the full name of a
/// reference.
pub open spec fn allowed_reference(name: Seq<char>) -> bool {
    &&& name.len() > 0
    &&& name[0] != '/' && name[0] != '.'
    &&& name.last() != '/' && name.last() != '.'
    &&& forall|i: int| 0 <= i < name.len() ==> !forbidden_in_reference(#[trigger] name[i])
    &&& forall|i: int| 0 <= i < name.len() - 1 ==> !#[trigger] forbidden_pair_at(name, i)
    &&& forall|i: int| !#[trigger] part_at(name, ".lock/"@, i)
    &&& !".lock"@.is_suffix_of(name)
}

/// What `gix_validate::reference::name` says of a name that it rejects.
pub uninterp spec fn reference_problem_text(name: Seq<char>) -> Seq<char>;

/// `gix_validate::reference::name`: what is wrong with `name`, or `None` where
/// it accepts it.
///
/// It accepts a name that holds a slash exactly where [`allowed_reference`]
/// does, and its error depends on the name alone.
#[verifier::external_body]
fn reference_problem(name: &str) -> (r: Option<String>)
    requires
        name@.contains('/'),
    ensures
        r is None <==> allowed_reference(name@),
        r matches Some(text) ==> text@ == reference_problem_text(name@),
{
    gix_validate::reference::name(name.as_bytes().as_bstr()).err().map(|e| e.to_string())
}

/// The name of a stream's `code` ref.
pub open spec fn code_ref_of(id: Seq<char>) -> Seq<char> {
    STREAMS_PREFIX@ + id + "/code"@
}

/// The name of the ref that pins the `code` tip last pushed.
pub open spec fn sent_ref_of(id: Seq<char>) -> Seq<char> {
    STREAMS_PREFIX@ + id + "/sent/code"@
}

/// The name of a stream's `extra` ref.
pub open spec fn extra_ref_of(id: Seq<char>) -> Seq<char> {
    STREAMS_PREFIX@ + id + "/extra"@
}

/// The name of the ref that pins the `extra` tip last pushed.
pub open spec fn sent_extra_ref_of(id: Seq<char>) -> Seq<char> {
    STREAMS_PREFIX@ + id + "/sent/extra"@
}

/// What the name of every ref of a stream starts with.
pub open spec fn stream_prefix_of(id: Seq<char>) -> Seq<char> {
    STREAMS_PREFIX@ + id + "/"@
}

/// Whether `id` can name a stream: the `code` ref is one that git allows.
pub open spec fn is_stream_id(id: Seq<char>) -> bool {
    id.len() > 0 && allowed_reference(code_ref_of(id))
}

/// A slot of synced state that is named and used again from sync to sync. Its
/// view is the name.
///
/// A name may be shaped like a branch and hold slashes.
#[derive(Debug, PartialEq, Eq, Hash)]
pub struct StreamId {
    id: String,
}

impl View for StreamId {
    type V = Seq<char>;

    closed spec fn view(&self) -> Seq<char> {
        self.id@
    }
}

impl Clone for StreamId {
    fn clone(&self) -> (r: Self)
        ensures
            r@ == self@,
    {
        proof {
            use_type_invariant(self);
        }
        StreamId { id: self.id.clone() }
    }
}

/// The reason a string was rejected as a [`StreamId`].
#[derive(Debug)]
pub enum StreamIdError {
    /// The id was empty.
    Empty,
    /// The id would not form a valid git ref path.
    Invalid {
        /// The rejected id.
        id: String,
        /// What is wrong with the ref.
        reason: String,
    },
}

/// The view of a [`StreamIdError`].
pub enum StreamIdErrorView {
    Empty,
    Invalid { id: Seq<char>, reason: Seq<char> },
}

impl View for StreamIdError {
    type V = StreamIdErrorView;

    open spec fn view(&self) -> StreamIdErrorView {
        match *self {
            StreamIdError::Empty => StreamIdErrorView::Empty,
            StreamIdError::Invalid { id, reason } => StreamIdErrorView::Invalid {
                id: id@,
                reason: reason@,
            },
        }
    }
}

impl StreamIdError {
    /// The text of [`StreamIdError::message`].
    pub open spec fn text(self) -> Seq<char> {
        match self {
            StreamIdError::Empty => "stream id must not be empty"@,
            StreamIdError::Invalid { id, reason } => "invalid stream id `"@ + id@
                + "`: must be a valid Git ref path ("@ + reason@ + ")"@,
        }
    }

    /// What the error says.
    pub fn message(&self) -> (r: String)
        ensures
            r@ == self.text(),
    {
        match self {
            StreamIdError::Empty => "stream id must not be empty".to_owned(),
            StreamIdError::Invalid { id, reason } => {
                let mut out = concat3(
                    "invalid stream id `",
                    id.as_str(),
                    "`: must be a valid Git ref path (",
                );
                out.append(reason.as_str());
                out.append(")");
                out
            },
        }
    }
}

/// What [`StreamId::new`] returns for `id`.
pub open spec fn new_stream_id(id: Seq<char>, r: Result<StreamId, StreamIdError>) -> bool {
    match r {
        Ok(stream) => is_stream_id(id) && stream@ == id,
        Err(StreamIdError::Empty) => id.len() == 0,
        Err(StreamIdError::Invalid { id: rejected, reason }) => id.len() > 0 && !allowed_reference(
            code_ref_of(id),
        ) && rejected@ == id && reason@ == reference_problem_text(code_ref_of(id)),
    }
}

impl StreamId {
    #[verifier::type_invariant]
    spec fn well_formed(self) -> bool {
        is_stream_id(self.id@)
    }

    /// Validates `id`: what git would reject in the name of the stream's
    /// `code` ref is rejected here.
    pub fn new(id: &str) -> (r: Result<Self, StreamIdError>)
        ensures
            new_stream_id(id@, r),
    {
        if id.is_empty() {
            return Err(StreamIdError::Empty);
        }
        let candidate = concat3(STREAMS_PREFIX, id, "/code");
        proof {
            reveal_strlit("refs/git-full-send/streams/");
            assert(candidate@[4] == '/');
        }
        match reference_problem(candidate.as_str()) {
            Some(reason) => Err(StreamIdError::Invalid { id: id.to_owned(), reason }),
            None => Ok(StreamId { id: id.to_owned() }),
        }
    }

    /// The id as text.
    pub fn as_str(&self) -> (r: &str)
        ensures
            r@ == self@,
            is_stream_id(self@),
    {
        proof {
            use_type_invariant(self);
        }
        self.id.as_str()
    }
}

/// The ref that holds the stream's encoded `code` state.
pub fn code_ref(stream: &StreamId) -> (r: String)
    ensures
        r@ == code_ref_of(stream@),
{
    concat3(STREAMS_PREFIX, stream.as_str(), "/code")
}

/// The client's ref that pins the `code` tip last confirmed as pushed.
pub fn sent_ref(stream: &StreamId) -> (r: String)
    ensures
        r@ == sent_ref_of(stream@),
{
    concat3(STREAMS_PREFIX, stream.as_str(), "/sent/code")
}

/// The ref that holds the stream's encoded `extra` state: the files that are
/// force-included although git ignores them.
pub fn extra_ref(stream: &StreamId) -> (r: String)
    ensures
        r@ == extra_ref_of(stream@),
{
    concat3(STREAMS_PREFIX, stream.as_str(), "/extra")
}

/// The client's ref that pins the `extra` tip last confirmed as pushed.
pub fn sent_extra_ref(stream: &StreamId) -> (r: String)
    ensures
        r@ == sent_extra_ref_of(stream@),
{
    concat3(STREAMS_PREFIX, stream.as_str(), "/sent/extra")
}

/// What the name of every ref of the stream starts with. The slash at its end
/// bounds it at a path segment.
pub fn stream_prefix(stream: &StreamId) -> (r: String)
    ensures
        r@ == stream_prefix_of(stream@),
{
    concat3(STREAMS_PREFIX, stream.as_str(), "/")
}

/// An error at the boundary of client and server.
#[derive(Debug)]
pub enum ProtocolError {
    /// A protocol invariant was violated.
    Protocol(String),
}

impl ProtocolError {
    /// What the error says.
    pub fn message(&self) -> (r: String)
        ensures
            r@ == match *self {
                ProtocolError::Protocol(what) => "protocol error: "@ + what@,
            },
    {
        match self {
            ProtocolError::Protocol(what) => {
                let mut out = "protocol error: ".to_owned();
                out.append(what.as_str());
                out
            },
        }
    }
}

proof fn lemma_prefixes(id: Seq<char>, tail: Seq<char>)
    ensures
        STREAMS_PREFIX@.is_prefix_of(STREAMS_PREFIX@ + id + tail),
        REF_NAMESPACE@.is_prefix_of(STREAMS_PREFIX@ + id + tail),
{
    reveal_strlit("refs/git-full-send/");
    reveal_strlit("refs/git-full-send/streams/");
    let whole = STREAMS_PREFIX@ + id + tail;
    assert(whole.subrange(0, STREAMS_PREFIX@.len() as int) =~= STREAMS_PREFIX@);
    assert(whole.subrange(0, REF_NAMESPACE@.len() as int) =~= REF_NAMESPACE@);
}

/// Every ref of a stream, and the stream's prefix, lies under the common
/// prefix and so in the namespace.
pub proof fn law_refs_live_under_the_namespace(id: Seq<char>)
    ensures
        STREAMS_PREFIX@.is_prefix_of(stream_prefix_of(id)),
        REF_NAMESPACE@.is_prefix_of(STREAMS_PREFIX@),
        REF_NAMESPACE@.is_prefix_of(code_ref_of(id)),
        REF_NAMESPACE@.is_prefix_of(sent_ref_of(id)),
        REF_NAMESPACE@.is_prefix_of(extra_ref_of(id)),
        REF_NAMESPACE@.is_prefix_of(sent_extra_ref_of(id)),
{
    lemma_prefixes(id, "/"@);
    lemma_prefixes(id, "/code"@);
    lemma_prefixes(id, "/sent/code"@);
    lemma_prefixes(id, "/extra"@);
    lemma_prefixes(id, "/sent/extra"@);
    lemma_prefixes(Seq::empty(), Seq::empty());
    assert(STREAMS_PREFIX@ + Seq::<char>::empty() + Seq::<char>::empty() =~= STREAMS_PREFIX@);
}

/// Every ref of a stream starts with the stream's prefix.
pub proof fn law_a_stream_prefix_covers_its_refs(id: Seq<char>)
    ensures
        stream_prefix_of(id).is_prefix_of(code_ref_of(id)),
        stream_prefix_of(id).is_prefix_of(sent_ref_of(id)),
        stream_prefix_of(id).is_prefix_of(extra_ref_of(id)),
        stream_prefix_of(id).is_prefix_of(sent_extra_ref_of(id)),
{
    reveal_strlit("/");
    reveal_strlit("/code");
    reveal_strlit("/sent/code");
    reveal_strlit("/extra");
    reveal_strlit("/sent/extra");
    let n = stream_prefix_of(id).len() as int;
    assert(code_ref_of(id).subrange(0, n) =~= stream_prefix_of(id));
    assert(sent_ref_of(id).subrange(0, n) =~= stream_prefix_of(id));
    assert(extra_ref_of(id).subrange(0, n) =~= stream_prefix_of(id));
    assert(sent_extra_ref_of(id).subrange(0, n) =~= stream_prefix_of(id));
}

/// A stream's prefix is bounded at a path segment: it covers the `code` ref of
/// another stream only where that stream's id continues this one's behind a
/// slash.
pub proof fn law_a_stream_prefix_is_bounded_at_a_segment(id: Seq<char>, other: Seq<char>)
    ensures
        stream_prefix_of(id).is_prefix_of(code_ref_of(other)) <==> (other == id || (id
            + "/"@).is_prefix_of(other)),
{
    reveal_strlit("/");
    reveal_strlit("/code");
    let p = STREAMS_PREFIX@.len() as int;
    let prefix = stream_prefix_of(id);
    let name = code_ref_of(other);
    let rest = other + "/code"@;
    assert(name.subrange(p, name.len() as int) =~= rest);
    assert(prefix.subrange(p, prefix.len() as int) =~= id + "/"@);
    if prefix.is_prefix_of(name) {
        assert forall|i: int| 0 <= i < id.len() + 1 implies (id + "/"@)[i] == rest[i] by {
            assert(prefix[p + i] == name.subrange(0, prefix.len() as int)[p + i]);
            assert(name[p + i] == rest[i]);
        }
        if other.len() > id.len() {
            assert((id + "/"@) =~= other.subrange(0, id.len() as int + 1));
        } else if other.len() == id.len() {
            assert forall|i: int| 0 <= i < id.len() implies other[i] == id[i] by {
                assert((id + "/"@)[i] == rest[i]);
            }
            assert(other =~= id);
        } else {
            assert((id + "/"@)[id.len() as int] == rest[id.len() as int]);
            assert("/code"@[id.len() - other.len()] == '/');
        }
    }
    if other == id {
        law_a_stream_prefix_covers_its_refs(id);
    }
    if (id + "/"@).is_prefix_of(other) {
        assert forall|i: int| 0 <= i < id.len() + 1 implies (id + "/"@)[i] == other[i] by {
            assert((id + "/"@)[i] == other.subrange(0, id.len() as int + 1)[i]);
        }
        assert(prefix =~= name.subrange(0, prefix.len() as int));
    }
}

/// Different streams have different `code` refs.
pub proof fn law_code_refs_tell_streams_apart(id: Seq<char>, other: Seq<char>)
    requires
        code_ref_of(id) == code_ref_of(other),
    ensures
        id == other,
{
    let p = STREAMS_PREFIX@.len() as int;
    let q = "/code"@.len() as int;
    let name = code_ref_of(id);
    assert(id =~= name.subrange(p, name.len() - q));
    assert(other =~= name.subrange(p, name.len() - q));
}

/// Whether a character may stand anywhere in a stream id: a letter, a digit, a
/// hyphen or an underscore.
pub open spec fn is_plain(c: char) -> bool {
    ||| '0' <= c <= '9'
    ||| 'a' <= c <= 'z'
    ||| 'A' <= c <= 'Z'
    ||| c == '-'
    ||| c == '_'
}

/// Letters, digits, hyphens and underscores always make a stream id.
pub proof fn law_plain_characters_make_a_stream_id(id: Seq<char>)
    requires
        id.len() > 0,
        forall|i: int| 0 <= i < id.len() ==> is_plain(#[trigger] id[i]),
    ensures
        is_stream_id(id),
{
    reveal_strlit("refs/git-full-send/streams/");
    reveal_strlit("/code");
    reveal_strlit(".lock/");
    reveal_strlit(".lock");
    let name = code_ref_of(id);
    let p = STREAMS_PREFIX@.len() as int;
    let n = id.len() as int;
    assert(p == 27);
    assert forall|i: int| 0 <= i < name.len() implies !forbidden_in_reference(#[trigger] name[i])
        && name[i] != '.' && name[i] != '@' by {
        if i < p {
            assert(name[i] == STREAMS_PREFIX@[i]);
        } else if i < p + n {
            assert(name[i] == id[i - p]);
        } else {
            assert(name[i] == "/code"@[i - p - n]);
        }
    }
    assert forall|i: int| 0 <= i < name.len() - 1 implies !#[trigger] forbidden_pair_at(name, i) by {
        if name[i] == '/' && name[i + 1] == '/' {
            if i + 1 < p {
                assert(name[i] == STREAMS_PREFIX@[i]);
                assert(name[i + 1] == STREAMS_PREFIX@[i + 1]);
            } else if i + 1 < p + n {
                assert(name[i + 1] == id[i + 1 - p]);
            } else if i < p + n {
                assert(name[i] == id[i - p]);
            } else {
                assert(name[i + 1] == "/code"@[i + 1 - p - n]);
            }
        }
    }
    assert forall|i: int| !#[trigger] part_at(name, ".lock/"@, i) by {
        if part_at(name, ".lock/"@, i) {
            assert(name.subrange(i, i + 6)[0] == '.');
            assert(name[i] == '.');
        }
    }
    if ".lock"@.is_suffix_of(name) {
        assert(name.subrange(name.len() - 5, name.len() as int)[0] == '.');
        assert(name[name.len() - 5] == '.');
    }
    assert(name.last() == "/code"@[4]);
    assert(name[0] == STREAMS_PREFIX@[0]);
}

/// The refs of a stream are found by its name: the two that are pushed, and the
/// two that pin what was, are four different refs below the stream's prefix.
pub proof fn law_the_refs_of_a_stream_go_by_its_name(id: Seq<char>)
    ensures
        stream_prefix_of(id) == "refs/git-full-send/streams/"@ + id + "/"@,
        code_ref_of(id) == stream_prefix_of(id) + "code"@,
        extra_ref_of(id) == stream_prefix_of(id) + "extra"@,
        sent_ref_of(id) == stream_prefix_of(id) + "sent/code"@,
        sent_extra_ref_of(id) == stream_prefix_of(id) + "sent/extra"@,
        code_ref_of(id) != extra_ref_of(id),
        code_ref_of(id) != sent_ref_of(id),
        code_ref_of(id) != sent_extra_ref_of(id),
        extra_ref_of(id) != sent_ref_of(id),
        extra_ref_of(id) != sent_extra_ref_of(id),
        sent_ref_of(id) != sent_extra_ref_of(id),
{
    reveal_strlit("/");
    reveal_strlit("code");
    reveal_strlit("extra");
    reveal_strlit("sent/code");
    reveal_strlit("sent/extra");
    reveal_strlit("/code");
    reveal_strlit("/extra");
    reveal_strlit("/sent/code");
    reveal_strlit("/sent/extra");
    assert(code_ref_of(id) =~= stream_prefix_of(id) + "code"@);
    assert(extra_ref_of(id) =~= stream_prefix_of(id) + "extra"@);
    assert(sent_ref_of(id) =~= stream_prefix_of(id) + "sent/code"@);
    assert(sent_extra_ref_of(id) =~= stream_prefix_of(id) + "sent/extra"@);
}

/// A stream id is any name whose `code` ref git allows; an empty name is refused
/// as such, and any other with what git would say of that ref.
pub proof fn law_a_stream_id_is_what_git_allows(id: Seq<char>, r: Result<StreamId, StreamIdError>)
    requires
        new_stream_id(id, r),
    ensures
        (r is Ok) <==> id.len() > 0 && allowed_reference(
            "refs/git-full-send/streams/"@ + id + "/code"@,
        ),
        r matches Ok(stream) ==> stream@ == id,
        id.len() == 0 ==> r matches Err(StreamIdError::Empty),
        r matches Err(StreamIdError::Invalid { id: rejected, reason }) ==> rejected@ == id
            && reason@ == reference_problem_text("refs/git-full-send/streams/"@ + id + "/code"@),
{
}

/// The defaults keep the server to itself and bounded: it listens on the loopback
/// alone, serves sixteen connections at a time, five minutes each, and waits ten
/// seconds for a preamble.
pub proof fn law_the_defaults_are_bounded()
    ensures
        "127.0.0.1:"@.is_prefix_of(DEFAULT_LISTEN_ADDR@),
        DEFAULT_MAX_CONNECTIONS == 16,
        DEFAULT_CONNECTION_TIMEOUT_SECS == 5 * 60,
        DEFAULT_AUTH_TIMEOUT_SECS == 10,
{
    reveal_strlit("127.0.0.1:");
    reveal_strlit("127.0.0.1:9419");
    assert(DEFAULT_LISTEN_ADDR@.subrange(0, "127.0.0.1:"@.len() as int) =~= "127.0.0.1:"@);
}

} // verus!
