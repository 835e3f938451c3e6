//! Asking the server whether it is up, by a conversation that updates nothing.
//!
//! A probe reads the ref advertisement, sends a flush-pkt and reads to the end.
//! The advertisement is measured on the way: every connection pays for it.

use vstd::prelude::*;

use crate::auth::{auth_pkt, Token};
use crate::bytes::ByteReader;
use crate::listen::{level_of, Exchange, LogLevel, Outcome, HOOK_REFUSAL_MARKER};
use crate::pktline::{
    counts_of, division, hex_number, law_a_header_is_a_number, opens_with, parse_length,
    pkt_length, Division,
};
use crate::protocol::REF_NAMESPACE;
use crate::push::{opening_of, secret_in};
use crate::text::{
    chars_of, concat3, has_part, index_of, is_white, law_white_space_parts_words, lossy_text,
    next_index, same_text, starts_with, texts, trimmed, utf8_lossy, words, words_of,
};

verus! {

/// The reason that a probe failed.
#[derive(Debug)]
pub enum ProbeError {
    /// The server could not be reached.
    Connect {
        /// Its address.
        remote: String,
        /// What the attempt said.
        source: String,
    },
    /// The conversation failed.
    Exchange {
        /// The server's address.
        remote: String,
        /// What the attempt said.
        source: String,
    },
    /// Something answered, but it was not `git receive-pack`.
    NotReceivePack {
        /// Its address.
        remote: String,
    },
}

/// The view of a [`ProbeError`].
pub enum ProbeErrorView {
    Connect { remote: Seq<char>, source: Seq<char> },
    Exchange { remote: Seq<char>, source: Seq<char> },
    NotReceivePack { remote: Seq<char> },
}

impl View for ProbeError {
    type V = ProbeErrorView;

    open spec fn view(&self) -> ProbeErrorView {
        match *self {
            ProbeError::Connect { remote, source } => ProbeErrorView::Connect {
                remote: remote@,
                source: source@,
            },
            ProbeError::Exchange { remote, source } => ProbeErrorView::Exchange {
                remote: remote@,
                source: source@,
            },
            ProbeError::NotReceivePack { remote } => ProbeErrorView::NotReceivePack {
                remote: remote@,
            },
        }
    }
}

impl ProbeError {
    /// The text of [`ProbeError::message`].
    pub open spec fn text(self) -> Seq<char> {
        match self {
            ProbeError::Connect { remote, .. } => "could not connect to `"@ + remote@ + "`"@,
            ProbeError::Exchange { remote, .. } =>
                "could not complete the probe exchange with `"@ + remote@ + "`"@,
            ProbeError::NotReceivePack { remote } => "`"@ + remote@
                + "` answered, but not with a ref advertisement"@,
        }
    }

    /// What the error says.
    pub fn message(&self) -> (r: String)
        ensures
            r@ == self.text(),
    {
        match self {
            ProbeError::Connect { remote, .. } => concat3(
                "could not connect to `",
                remote.as_str(),
                "`",
            ),
            ProbeError::Exchange { remote, .. } => concat3(
                "could not complete the probe exchange with `",
                remote.as_str(),
                "`",
            ),
            ProbeError::NotReceivePack { remote } => concat3(
                "`",
                remote.as_str(),
                "` answered, but not with a ref advertisement",
            ),
        }
    }
}

/// What a probe found.
#[derive(Debug)]
pub struct ProbeReport {
    /// The server's address.
    pub remote: String,
    /// The bytes of the ref advertisement, with its flush-pkt.
    pub advertisement_bytes: u64,
    /// How many refs are advertised.
    pub refs_advertised: u64,
    /// How many of them are in the namespace of synced refs.
    pub refs_ours: u64,
}

/// The name in a line of an advertisement: its second word, up to the first NUL
/// character. The placeholder of a repository without refs names none.
pub open spec fn advertised_name(line: Seq<char>) -> Option<Seq<char>> {
    let words = words_of(line.take(next_index(line, '\0', 0)));
    if words.len() < 2 || words[1] == "capabilities^{}"@ {
        None
    } else {
        Some(words[1])
    }
}

/// The name in a line of an advertisement, if it names a ref.
pub fn ref_name_in(line: &str) -> (r: Option<String>)
    ensures
        match r {
            Some(name) => advertised_name(line@) == Some(name@),
            None => advertised_name(line@) is None,
        },
{
    let chars = chars_of(line);
    let end: usize = index_of(chars.as_slice(), '\0');
    let head = vstd::slice::slice_subrange(chars.as_slice(), 0, end);
    proof {
        assert(head@ =~= line@.take(end as int));
    }
    let all = words(head);
    proof {
        assert(texts(all@).len() == all@.len());
        assert(all@.len() >= 2 ==> texts(all@)[1] == all@[1]@);
    }
    if all.len() < 2 || same_text(all[1].as_str(), "capabilities^{}") {
        None
    } else {
        Some(all[1].clone())
    }
}

/// The name in the payload of a line of an advertisement, if it names a ref.
pub fn ref_name(payload: &[u8]) -> (r: Option<String>)
    ensures
        match r {
            Some(name) => advertised_name(utf8_lossy(payload@)) == Some(name@),
            None => advertised_name(utf8_lossy(payload@)) is None,
        },
{
    let line = lossy_text(payload);
    ref_name_in(line.as_str())
}

/// A ref advertisement, as far as it was read.
#[derive(Debug)]
pub struct Advertisement {
    /// How many bytes it took, with the flush-pkt.
    pub bytes: u64,
    /// The names in it.
    pub refs: Vec<String>,
}

/// What follows the header of a pkt-line.
#[derive(Debug, Clone, Copy, PartialEq, Eq, Structural)]
pub enum AfterHeader {
    /// The advertisement is over.
    Done,
    /// So many bytes of payload.
    Payload(usize),
}

/// What the names so far are once a line was read.
pub open spec fn with_name(refs: Seq<Seq<char>>, payload: Seq<u8>) -> Seq<Seq<char>> {
    match advertised_name(utf8_lossy(payload)) {
        Some(name) => refs.push(name),
        None => refs,
    }
}

/// What reading an advertisement gives: its bytes and the names in it, or `None`
/// where the stream ends within a line.
///
/// The advertisement ends at the flush-pkt, or where a header announces a length
/// that no line has. Where a header is no length at all, the stream is no
/// advertisement: nothing of it counts, and it names nothing. The end of the stream
/// before a header ends the advertisement too.
pub open spec fn advertised(bytes: nat, refs: Seq<Seq<char>>, s: Seq<u8>) -> Option<
    (nat, Seq<Seq<char>>),
>
    decreases s.len(),
{
    if s.len() < 4 {
        Some((bytes, refs))
    } else {
        match pkt_length(s.take(4)) {
            None => Some((0, Seq::empty())),
            Some(n) => if n < 4 {
                Some((bytes + 4, refs))
            } else if s.len() < n {
                None
            } else {
                advertised(bytes + n, with_name(refs, s.subrange(4, n as int)), s.skip(n as int))
            },
        }
    }
}

impl Advertisement {
    /// An advertisement of which nothing was read.
    pub fn new() -> (r: Self)
        ensures
            r.bytes == 0,
            texts(r.refs@) == Seq::<Seq<char>>::empty(),
    {
        let r = Advertisement { bytes: 0, refs: Vec::new() };
        assert(texts(r.refs@) =~= Seq::<Seq<char>>::empty());
        r
    }

    /// Takes the header of a line. What is not framed in lines is no
    /// advertisement, and nothing of it counts.
    pub fn on_header(&mut self, header: &[u8; 4]) -> (r: AfterHeader)
        requires
            old(self).bytes + 4 <= u64::MAX,
        ensures
            match pkt_length(header@) {
                None => {
                    &&& r == AfterHeader::Done
                    &&& final(self).bytes == 0
                    &&& texts(final(self).refs@) == Seq::<Seq<char>>::empty()
                },
                Some(n) => {
                    &&& final(self).bytes == old(self).bytes + 4
                    &&& texts(final(self).refs@) == texts(old(self).refs@)
                    &&& if n < 4 {
                        r == AfterHeader::Done
                    } else {
                        r matches AfterHeader::Payload(len) && len == n - 4
                    }
                },
            },
    {
        match parse_length(header) {
            None => {
                self.bytes = 0;
                self.refs = Vec::new();
                proof {
                    assert(texts(self.refs@) =~= Seq::<Seq<char>>::empty());
                }
                AfterHeader::Done
            },
            Some(n) => {
                self.bytes = self.bytes + 4;
                if n < 4 {
                    AfterHeader::Done
                } else {
                    AfterHeader::Payload(n - 4)
                }
            },
        }
    }

    /// Takes the payload of a line.
    pub fn on_payload(&mut self, payload: &[u8])
        requires
            old(self).bytes + payload@.len() <= u64::MAX,
        ensures
            final(self).bytes == old(self).bytes + payload@.len(),
            texts(final(self).refs@) == with_name(texts(old(self).refs@), payload@),
    {
        self.bytes = self.bytes + payload.len() as u64;
        if let Some(name) = ref_name(payload) {
            crate::text::push_text(&mut self.refs, name.as_str());
        }
    }
}

/// Reads an advertisement, or gives `None` where the stream ends within a line.
pub fn read_advertisement(reader: &mut ByteReader) -> (r: Option<Advertisement>)
    requires
        old(reader)@.len() <= u64::MAX,
    ensures
        match r {
            Some(found) => advertised(0, Seq::empty(), old(reader)@) == Some(
                (found.bytes as nat, texts(found.refs@)),
            ),
            None => advertised(0, Seq::empty(), old(reader)@) is None,
        },
{
    let ghost all = reader@;
    let mut found = Advertisement::new();
    loop
        invariant
            all == old(reader)@,
            found.bytes + reader@.len() <= u64::MAX,
            advertised(0, Seq::empty(), all) == advertised(
                found.bytes as nat,
                texts(found.refs@),
                reader@,
            ),
        decreases reader@.len(),
    {
        let ghost s = reader@;
        let ghost bytes = found.bytes as nat;
        let ghost refs = texts(found.refs@);
        let head = match reader.read_exact(4) {
            Some(head) => head,
            None => return Some(found),
        };
        let header: [u8; 4] = [head[0], head[1], head[2], head[3]];
        proof {
            assert(header@ =~= s.take(4));
        }
        let len: usize = match found.on_header(&header) {
            AfterHeader::Done => return Some(found),
            AfterHeader::Payload(len) => len,
        };
        let payload = match reader.read_exact(len) {
            Some(payload) => payload,
            None => return None,
        };
        proof {
            let n = len + 4;
            assert(s.skip(4).take(len as int) =~= s.subrange(4, n));
            assert(s.skip(4).skip(len as int) =~= s.skip(n));
            assert(advertised(bytes, refs, s) == advertised(
                (bytes + n) as nat,
                with_name(refs, s.subrange(4, n)),
                s.skip(n),
            ));
        }
        found.on_payload(payload.as_slice());
    }
}

/// How many of `names` start with `prefix`.
pub open spec fn count_under(names: Seq<Seq<char>>, prefix: Seq<char>) -> nat
    decreases names.len(),
{
    if names.len() == 0 {
        0
    } else {
        count_under(names.drop_last(), prefix) + if prefix.is_prefix_of(names.last()) {
            1nat
        } else {
            0
        }
    }
}

/// How many of `names` start with `prefix`.
pub fn count_with_prefix(names: &Vec<String>, prefix: &str) -> (r: usize)
    ensures
        r == count_under(texts(names@), prefix@),
        r <= names@.len(),
{
    let head = chars_of(prefix);
    let ghost all = texts(names@);
    let mut n: usize = 0;
    let mut i: usize = 0;
    proof {
        assert(all.take(0) =~= Seq::<Seq<char>>::empty());
    }
    while i < names.len()
        invariant
            i <= names@.len(),
            n <= i,
            all == texts(names@),
            head@ == prefix@,
            n == count_under(all.take(i as int), prefix@),
        decreases names@.len() - i,
    {
        proof {
            let next = all.take(i + 1);
            assert(next.drop_last() =~= all.take(i as int));
            assert(next.last() == names@[i as int]@);
        }
        let name = chars_of(names[i].as_str());
        if starts_with(name.as_slice(), head.as_slice()) {
            n += 1;
        }
        i += 1;
    }
    proof {
        assert(all.take(all.len() as int) =~= all);
    }
    n
}

/// What a probe reports of the advertisement that it read. Where there was none,
/// it was not `receive-pack` that answered.
pub fn probe_report(remote: &str, found: &Advertisement) -> (r: Result<ProbeReport, ProbeError>)
    ensures
        match r {
            Ok(report) => {
                &&& found.refs@.len() > 0 || found.bytes > 0
                &&& report.remote@ == remote@
                &&& report.advertisement_bytes == found.bytes
                &&& report.refs_advertised == found.refs@.len()
                &&& report.refs_ours == count_under(texts(found.refs@), REF_NAMESPACE@)
            },
            Err(ProbeError::NotReceivePack { remote: who }) => found.refs@.len() == 0
                && found.bytes == 0 && who@ == remote@,
            Err(_) => false,
        },
{
    if found.refs.len() == 0 && found.bytes == 0 {
        return Err(ProbeError::NotReceivePack { remote: remote.to_owned() });
    }
    Ok(
        ProbeReport {
            remote: remote.to_owned(),
            advertisement_bytes: found.bytes,
            refs_advertised: found.refs.len() as u64,
            refs_ours: count_with_prefix(&found.refs, REF_NAMESPACE) as u64,
        },
    )
}

/// What a client writes before it reads: its preamble, if it has a secret.
pub fn opening_bytes(auth: Option<&Token>) -> (r: Vec<u8>)
    ensures
        r@ == opening_of(
            match auth {
                Some(token) => Some(token@),
                None => None,
            },
        ),
{
    match auth {
        Some(token) => auth_pkt(token),
        None => Vec::new(),
    }
}

/// A flush-pkt.
pub open spec fn flush() -> Seq<u8> {
    seq![48u8, 48, 48, 48]
}

proof fn lemma_flush_asks_for_nothing()
    ensures
        division(flush()) == (Division {
            pre: 4,
            pkts: 0,
            post: 0,
        }),
{
    let s = flush();
    assert(s.subrange(0, 4) =~= s);
    reveal_with_fuel(hex_number, 5);
    assert(s.drop_last() =~= seq![48u8, 48, 48]);
    assert(seq![48u8, 48, 48].drop_last() =~= seq![48u8, 48]);
    assert(seq![48u8, 48].drop_last() =~= seq![48u8]);
    assert(seq![48u8].drop_last() =~= Seq::<u8>::empty());
    assert(pkt_length(s) == Some(0nat));
}

/// What a probe says once it has read the advertisement: a complete stream that
/// asks for no update.
pub fn flush_pkt() -> (r: Vec<u8>)
    ensures
        r@ == flush(),
        division(r@) == (Division { pre: 4, pkts: 0, post: 0 }),
{
    proof {
        lemma_flush_asks_for_nothing();
    }
    let mut out: Vec<u8> = Vec::new();
    out.push(48);
    out.push(48);
    out.push(48);
    out.push(48);
    assert(out@ =~= flush());
    out
}

/// Where a probe is.
#[derive(Debug, Clone, Copy, PartialEq, Eq, Structural)]
pub enum ProbeStep {
    /// The server is to be connected to.
    Connect,
    /// The preamble is to be sent.
    Open,
    /// The header of a line of the advertisement is to be read.
    Header,
    /// So many bytes of a line of the advertisement are to be read.
    Payload(usize),
    /// The conversation is to be completed.
    Flush,
    /// The probe is done.
    Done,
    /// A step failed.
    Failed,
}

/// What a probe does next.
#[derive(Debug)]
pub enum ProbeAction {
    /// Connect to the server.
    Connect {
        /// Its address.
        remote: String,
    },
    /// Send these bytes.
    Send {
        /// The bytes.
        bytes: Vec<u8>,
    },
    /// Read four bytes.
    ReadHeader,
    /// Read so many bytes.
    ReadPayload(usize),
    /// Send these bytes and read to the end.
    Complete {
        /// The bytes.
        bytes: Vec<u8>,
    },
    /// Nothing: the probe is done.
    Finish,
    /// Nothing: the probe failed.
    Stop,
}

/// How a step of a probe ended.
#[derive(Debug)]
pub enum ProbeEvent {
    /// The connection stands.
    Connected,
    /// The bytes were sent.
    Sent,
    /// The header was read, or the server had hung up before it.
    Header(Option<[u8; 4]>),
    /// The payload was read.
    Payload(Vec<u8>),
    /// The step could not be performed; what the attempt said.
    Failed(String),
}

/// A probe at some step.
#[verifier::ext_equal]
pub struct ProbeView {
    /// The server.
    pub remote: Seq<char>,
    /// The secret that is presented, if there is one.
    pub secret: Option<Seq<char>>,
    /// What was written to the connection.
    pub written: Seq<u8>,
    /// How many bytes of the advertisement were read.
    pub bytes: nat,
    /// The names in it.
    pub refs: Seq<Seq<char>>,
    /// Where the probe is.
    pub step: ProbeStep,
    /// The error that ended the probe.
    pub failure: Option<ProbeErrorView>,
}

impl ProbeView {
    /// A probe that has not begun.
    pub open spec fn fresh(remote: Seq<char>, secret: Option<Seq<char>>) -> ProbeView {
        ProbeView {
            remote,
            secret,
            written: Seq::empty(),
            bytes: 0,
            refs: Seq::empty(),
            step: ProbeStep::Connect,
            failure: None,
        }
    }

    /// The probe that failed with this error.
    pub open spec fn failed(self, error: ProbeErrorView) -> ProbeView {
        ProbeView { step: ProbeStep::Failed, failure: Some(error), ..self }
    }

    /// The probe whose advertisement is over: where there was none, it was not
    /// `receive-pack` that answered.
    pub open spec fn advertised(self) -> ProbeView {
        if self.refs.len() == 0 && self.bytes == 0 {
            self.failed(ProbeErrorView::NotReceivePack { remote: self.remote })
        } else {
            ProbeView { step: ProbeStep::Flush, ..self }
        }
    }

    /// Whether a step can end so.
    pub open spec fn admits(self, event: ProbeEvent) -> bool {
        match self.step {
            ProbeStep::Connect => event is Connected || event is Failed,
            ProbeStep::Open => event is Sent || event is Failed,
            ProbeStep::Header => event is Failed || (event is Header && self.bytes + 4
                <= u64::MAX),
            ProbeStep::Payload(n) => event is Failed || (event matches ProbeEvent::Payload(payload)
                && payload@.len() == n && self.bytes + n <= u64::MAX),
            ProbeStep::Flush => event is Sent || event is Failed,
            ProbeStep::Done => false,
            ProbeStep::Failed => false,
        }
    }

    /// The probe behind a step that ended so.
    pub open spec fn after(self, event: ProbeEvent) -> ProbeView {
        match event {
            ProbeEvent::Connected => ProbeView {
                step: if self.secret is Some {
                    ProbeStep::Open
                } else {
                    ProbeStep::Header
                },
                ..self
            },
            ProbeEvent::Sent => if self.step is Open {
                ProbeView {
                    written: self.written + opening_of(self.secret),
                    step: ProbeStep::Header,
                    ..self
                }
            } else {
                ProbeView { written: self.written + flush(), step: ProbeStep::Done, ..self }
            },
            ProbeEvent::Header(None) => self.advertised(),
            ProbeEvent::Header(Some(header)) => match pkt_length(header@) {
                None => ProbeView { bytes: 0, refs: Seq::empty(), ..self }.advertised(),
                Some(n) => {
                    let read = ProbeView { bytes: self.bytes + 4, ..self };
                    if n < 4 {
                        read.advertised()
                    } else {
                        ProbeView { step: ProbeStep::Payload((n - 4) as usize), ..read }
                    }
                },
            },
            ProbeEvent::Payload(payload) => ProbeView {
                bytes: self.bytes + payload@.len(),
                refs: with_name(self.refs, payload@),
                step: ProbeStep::Header,
                ..self
            },
            ProbeEvent::Failed(source) => self.failed(
                if self.step is Connect {
                    ProbeErrorView::Connect { remote: self.remote, source: source@ }
                } else {
                    ProbeErrorView::Exchange { remote: self.remote, source: source@ }
                },
            ),
        }
    }
}

/// The probe behind steps that ended so one after the other, where each can.
pub open spec fn probe_run(start: ProbeView, events: Seq<ProbeEvent>) -> Option<ProbeView>
    decreases events.len(),
{
    if events.len() == 0 {
        Some(start)
    } else {
        match probe_run(start, events.drop_last()) {
            Some(probe) => if probe.admits(events.last()) {
                Some(probe.after(events.last()))
            } else {
                None
            },
            None => None,
        }
    }
}

/// A probe of a server.
pub struct Probe {
    remote: String,
    auth: Option<Token>,
    written: Ghost<Seq<u8>>,
    found: Advertisement,
    step: ProbeStep,
    report: Option<ProbeReport>,
    failure: Option<ProbeError>,
}

/// Whether a report says what was read of an advertisement.
pub open spec fn is_report(
    report: ProbeReport,
    remote: Seq<char>,
    bytes: nat,
    refs: Seq<Seq<char>>,
) -> bool {
    &&& report.remote@ == remote
    &&& report.advertisement_bytes == bytes
    &&& report.refs_advertised == refs.len()
    &&& report.refs_ours == count_under(refs, REF_NAMESPACE@)
}

impl View for Probe {
    type V = ProbeView;

    closed spec fn view(&self) -> ProbeView {
        ProbeView {
            remote: self.remote@,
            secret: secret_in(self.auth),
            written: self.written@,
            bytes: self.found.bytes as nat,
            refs: texts(self.found.refs@),
            step: self.step,
            failure: match self.failure {
                Some(e) => Some(e@),
                None => None,
            },
        }
    }
}

impl Probe {
    #[verifier::type_invariant]
    spec fn well_formed(self) -> bool {
        &&& self.step is Open ==> self.auth is Some
        &&& self.step is Flush || self.step is Done <==> self.report is Some
        &&& self.report matches Some(report) ==> is_report(
            report,
            self.remote@,
            self.found.bytes as nat,
            texts(self.found.refs@),
        )
        &&& self.step is Failed <==> self.failure is Some
    }

    /// A probe that has not begun.
    pub fn new(remote: &str, auth: Option<&Token>) -> (r: Self)
        ensures
            r@ == ProbeView::fresh(
                remote@,
                match auth {
                    Some(token) => Some(token@),
                    None => None,
                },
            ),
    {
        Probe {
            remote: remote.to_owned(),
            auth: match auth {
                Some(token) => Some(token.clone()),
                None => None,
            },
            written: Ghost(Seq::empty()),
            found: Advertisement::new(),
            step: ProbeStep::Connect,
            report: None,
            failure: None,
        }
    }

    /// What is done next.
    pub fn action(&self) -> (r: ProbeAction)
        ensures
            match self@.step {
                ProbeStep::Connect => r matches ProbeAction::Connect { remote } && remote@
                    == self@.remote,
                ProbeStep::Open => r matches ProbeAction::Send { bytes } && bytes@ == opening_of(
                    self@.secret,
                ),
                ProbeStep::Header => r is ReadHeader,
                ProbeStep::Payload(n) => r == ProbeAction::ReadPayload(n),
                ProbeStep::Flush => r matches ProbeAction::Complete { bytes } && bytes@ == flush(),
                ProbeStep::Done => r is Finish,
                ProbeStep::Failed => r is Stop,
            },
    {
        proof {
            use_type_invariant(self);
        }
        match self.step {
            ProbeStep::Connect => ProbeAction::Connect { remote: self.remote.clone() },
            ProbeStep::Open => match &self.auth {
                Some(token) => ProbeAction::Send { bytes: opening_bytes(Some(token)) },
                None => ProbeAction::Stop,
            },
            ProbeStep::Header => ProbeAction::ReadHeader,
            ProbeStep::Payload(n) => ProbeAction::ReadPayload(n),
            ProbeStep::Flush => ProbeAction::Complete { bytes: flush_pkt() },
            ProbeStep::Done => ProbeAction::Finish,
            ProbeStep::Failed => ProbeAction::Stop,
        }
    }

    /// The probe whose advertisement is over.
    fn advertised(self) -> (r: Self)
        requires
            self@.step is Header,
        ensures
            r@ == self@.advertised(),
    {
        proof {
            use_type_invariant(&self);
        }
        match probe_report(self.remote.as_str(), &self.found) {
            Ok(report) => Probe { step: ProbeStep::Flush, report: Some(report), ..self },
            Err(e) => Probe { step: ProbeStep::Failed, failure: Some(e), ..self },
        }
    }

    /// The probe behind a step that ended so.
    pub fn on_event(self, event: ProbeEvent) -> (r: Self)
        requires
            self@.admits(event),
        ensures
            r@ == self@.after(event),
    {
        proof {
            use_type_invariant(&self);
        }
        let ghost before = self@;
        match event {
            ProbeEvent::Connected => {
                let step = if self.auth.is_some() {
                    ProbeStep::Open
                } else {
                    ProbeStep::Header
                };
                Probe { step, ..self }
            },
            ProbeEvent::Sent => match self.step {
                ProbeStep::Open => Probe {
                    written: Ghost(before.written + opening_of(before.secret)),
                    step: ProbeStep::Header,
                    ..self
                },
                _ => Probe {
                    written: Ghost(before.written + flush()),
                    step: ProbeStep::Done,
                    ..self
                },
            },
            ProbeEvent::Header(None) => self.advertised(),
            ProbeEvent::Header(Some(header)) => {
                let Probe { remote, auth, written, found, step, report, failure } = self;
                let mut found = found;
                let next = found.on_header(&header);
                let read = Probe { remote, auth, written, found, step, report, failure };
                match next {
                    AfterHeader::Done => read.advertised(),
                    AfterHeader::Payload(n) => Probe { step: ProbeStep::Payload(n), ..read },
                }
            },
            ProbeEvent::Payload(payload) => {
                let Probe { remote, auth, written, found, step: _, report, failure } = self;
                let mut found = found;
                found.on_payload(payload.as_slice());
                Probe { remote, auth, written, found, step: ProbeStep::Header, report, failure }
            },
            ProbeEvent::Failed(source) => {
                let remote = self.remote.clone();
                let e = match self.step {
                    ProbeStep::Connect => ProbeError::Connect { remote, source },
                    _ => ProbeError::Exchange { remote, source },
                };
                Probe { step: ProbeStep::Failed, report: None, failure: Some(e), ..self }
            },
        }
    }

    /// What the probe found, or the error that ended it, once it is over.
    pub fn outcome(self) -> (r: Option<Result<ProbeReport, ProbeError>>)
        ensures
            match r {
                Some(Ok(report)) => self@.step is Done && is_report(
                    report,
                    self@.remote,
                    self@.bytes,
                    self@.refs,
                ),
                Some(Err(e)) => self@.step is Failed && self@.failure == Some(e@),
                None => !(self@.step is Done || self@.step is Failed),
            },
    {
        proof {
            use_type_invariant(&self);
        }
        let Probe { step, report, failure, .. } = self;
        match step {
            ProbeStep::Done => match report {
                Some(report) => Some(Ok(report)),
                None => None,
            },
            _ => match failure {
                Some(e) => Some(Err(e)),
                None => None,
            },
        }
    }
}

proof fn lemma_probe_run(
    remote: Seq<char>,
    secret: Option<Seq<char>>,
    events: Seq<ProbeEvent>,
)
    ensures
        probe_run(ProbeView::fresh(remote, secret), events) matches Some(probe) ==> {
            &&& probe.secret == secret
            &&& probe.step is Connect || probe.step is Open ==> probe.written.len() == 0
            &&& probe.step is Header || probe.step is Payload || probe.step is Flush
                ==> probe.written == opening_of(secret)
            &&& probe.step is Done ==> probe.written == opening_of(secret) + flush()
        },
    decreases events.len(),
{
    if events.len() > 0 {
        lemma_probe_run(remote, secret, events.drop_last());
        let start = ProbeView::fresh(remote, secret);
        if let Some(probe) = probe_run(start, events.drop_last()) {
            if probe.written.len() == 0 {
                assert(probe.written =~= Seq::empty());
                assert(probe.written + opening_of(secret) =~= opening_of(secret));
            }
        }
    }
}

/// All that a completed probe writes is its preamble, if it has a secret, and one
/// flush-pkt.
pub proof fn law_a_probe_asks_for_no_update(
    remote: Seq<char>,
    secret: Option<Seq<char>>,
    events: Seq<ProbeEvent>,
)
    ensures
        probe_run(ProbeView::fresh(remote, secret), events) matches Some(probe) ==> probe.step
            is Done ==> probe.written == opening_of(secret) + flush(),
{
    lemma_probe_run(remote, secret, events);
}

/// Where what answers is not framed in lines, whatever it said before, the probe
/// fails and says that it is not `receive-pack`.
pub proof fn law_what_is_not_framed_is_not_receive_pack(probe: ProbeView, header: [u8; 4])
    requires
        probe.step is Header,
        pkt_length(header@) is None,
    ensures
        probe.after(ProbeEvent::Header(Some(header))).step is Failed,
        probe.after(ProbeEvent::Header(Some(header))).failure == Some(
            ProbeErrorView::NotReceivePack { remote: probe.remote },
        ),
{
}

/// A server counts a completed probe as a clean conversation that updated
/// nothing, and does not log it by default.
pub proof fn law_a_probe_is_a_clean_no_op(x: Exchange)
    requires
        counts_of(flush(), x.inbound),
        x.exit_code == Some(0i32),
        x.refs().len() == 0,
        !has_part(trimmed(x.stderr), HOOK_REFUSAL_MARKER@),
    ensures
        x.outcome() == Outcome::NoOp,
        level_of(x.outcome()) == LogLevel::Debug,
{
    lemma_flush_asks_for_nothing();
}

/// An advertised ref is the second word of its line, which ends where the
/// capabilities begin. A line of fewer words names none, nor does the placeholder
/// of a repository without refs.
pub proof fn law_an_advertised_ref_is_the_second_word(
    oid: Seq<char>,
    name: Seq<char>,
    capabilities: Seq<char>,
)
    requires
        oid.len() > 0,
        name.len() > 0,
        forall|i: int| 0 <= i < oid.len() ==> !is_white(#[trigger] oid[i]) && oid[i] != '\0',
        forall|i: int| 0 <= i < name.len() ==> !is_white(#[trigger] name[i]) && name[i] != '\0',
    ensures
        advertised_name(oid + seq![' '] + name) == if name == "capabilities^{}"@ {
            None
        } else {
            Some(name)
        },
        advertised_name(oid + seq![' '] + name + seq!['\0'] + capabilities) == advertised_name(
            oid + seq![' '] + name,
        ),
        advertised_name(oid + seq![' '] + name + seq!['\n']) == advertised_name(
            oid + seq![' '] + name,
        ),
        advertised_name(oid) is None,
{
    let line = oid + seq![' '] + name;
    assert forall|k: int| 0 <= k < line.len() implies line[k] != '\0' by {
        if k < oid.len() {
            assert(line[k] == oid[k]);
        } else if k > oid.len() {
            assert(line[k] == name[k - oid.len() - 1]);
        }
    }
    law_white_space_parts_words(oid, ' ', name);
    law_white_space_parts_words(name, ' ', Seq::empty());
    assert(words_of(line) =~= seq![oid, name]);
    lemma_up_to_nul(line, Seq::empty());
    assert(line + Seq::<char>::empty() =~= line);
    lemma_up_to_nul(line, seq!['\0'] + capabilities);
    assert(line + (seq!['\0'] + capabilities) =~= line + seq!['\0'] + capabilities);
    let fed = line + seq!['\n'];
    assert forall|k: int| 0 <= k < fed.len() implies fed[k] != '\0' by {
        if k < line.len() {
            assert(fed[k] == line[k]);
        }
    }
    lemma_up_to_nul(fed, Seq::empty());
    assert(fed + Seq::<char>::empty() =~= fed);
    law_white_space_parts_words(line, '\n', Seq::empty());
    assert(line + seq!['\n'] + Seq::<char>::empty() =~= fed);
    law_white_space_parts_words(Seq::empty(), ' ', Seq::empty());
    assert(words_of(Seq::<char>::empty()).len() == 0);
    assert(words_of(fed) =~= seq![oid, name]);
    lemma_up_to_nul(oid, Seq::empty());
    assert(oid + Seq::<char>::empty() =~= oid);
}

proof fn lemma_up_to_nul(line: Seq<char>, tail: Seq<char>)
    requires
        forall|k: int| 0 <= k < line.len() ==> #[trigger] line[k] != '\0',
        tail.len() == 0 || tail[0] == '\0',
    ensures
        (line + tail).take(next_index(line + tail, '\0', 0)) == line,
{
    lemma_nul_at(line, tail, 0);
    assert((line + tail).take(line.len() as int) =~= line);
}

proof fn lemma_nul_at(line: Seq<char>, tail: Seq<char>, from: int)
    requires
        forall|k: int| 0 <= k < line.len() ==> #[trigger] line[k] != '\0',
        tail.len() == 0 || tail[0] == '\0',
        0 <= from <= line.len(),
    ensures
        next_index(line + tail, '\0', from) == line.len(),
    decreases line.len() - from,
{
    let s = line + tail;
    if from < line.len() {
        assert(s[from] == line[from]);
        lemma_nul_at(line, tail, from + 1);
    } else if tail.len() > 0 {
        assert(s[from] == tail[0]);
    }
}

/// An advertisement is read line by line: a complete pkt-line adds its bytes and
/// the ref that it names. It ends at a header below four, which adds its own
/// bytes, or where nothing follows; one that breaks off in a line is none, and a
/// header that is no number makes all of it nothing.
pub proof fn law_an_advertisement_is_read_line_by_line(
    bytes: nat,
    refs: Seq<Seq<char>>,
    line: Seq<u8>,
    rest: Seq<u8>,
    n: int,
)
    ensures
        line.len() >= 4 && opens_with(line, line.len() as int) ==> advertised(
            bytes,
            refs,
            line + rest,
        ) == advertised(
            bytes + line.len(),
            match advertised_name(utf8_lossy(line.skip(4))) {
                Some(name) => refs + seq![name],
                None => refs,
            },
            rest,
        ),
        opens_with(line, n) && n < 4 ==> advertised(bytes, refs, line) == Some((bytes + 4, refs)),
        opens_with(line, n) && line.len() < n ==> advertised(bytes, refs, line) is None,
        line.len() >= 4 && (forall|k: int| !#[trigger] opens_with(line, k)) ==> advertised(
            bytes,
            refs,
            line,
        ) == Some((0nat, Seq::<Seq<char>>::empty())),
        line.len() < 4 ==> advertised(bytes, refs, line) == Some((bytes, refs)),
{
    if line.len() >= 4 {
        let header = line.take(4);
        if opens_with(line, n) {
            assert(opens_with(header, n));
            law_a_header_is_a_number(header, n as nat);
        }
        if opens_with(line, line.len() as int) {
            assert(opens_with(header, line.len() as int));
            law_a_header_is_a_number(header, line.len());
            let s = line + rest;
            assert(s.take(4) =~= header);
            assert(s.subrange(4, line.len() as int) =~= line.skip(4));
            assert(s.skip(line.len() as int) =~= rest);
            if let Some(name) = advertised_name(utf8_lossy(line.skip(4))) {
                assert(refs.push(name) =~= refs + seq![name]);
            }
        }
        if let Some(k) = pkt_length(header) {
            law_a_header_is_a_number(header, k);
            assert(opens_with(line, k as int));
        }
    }
}

/// A report says how large the advertisement was, how many refs it named, and how
/// many of those are in the namespace of synced refs.
pub proof fn law_a_report_counts_the_refs(
    report: ProbeReport,
    remote: Seq<char>,
    bytes: nat,
    refs: Seq<Seq<char>>,
)
    ensures
        is_report(report, remote, bytes, refs) <==> {
            &&& report.remote@ == remote
            &&& report.advertisement_bytes == bytes
            &&& report.refs_advertised == refs.len()
            &&& report.refs_ours == refs.filter(
                |name: Seq<char>| "refs/git-full-send/"@.is_prefix_of(name),
            ).len()
        },
{
    lemma_count_under(refs, "refs/git-full-send/"@);
}

proof fn lemma_count_under(names: Seq<Seq<char>>, prefix: Seq<char>)
    ensures
        count_under(names, prefix) == names.filter(
            |name: Seq<char>| prefix.is_prefix_of(name),
        ).len(),
    decreases names.len(),
{
    reveal(Seq::filter);
    if names.len() > 0 {
        lemma_count_under(names.drop_last(), prefix);
    }
}

/// A probe reads an advertisement line by line: the header of a line and its
/// payload add their bytes and the ref that it names. A header below four, or the
/// end of the stream, ends it: the flush-pkt follows, unless nothing was
/// advertised, which is not how `receive-pack` answers.
pub proof fn law_a_probe_reads_line_by_line(probe: ProbeView, header: [u8; 4], payload: Vec<u8>)
    requires
        probe.step is Header,
    ensures
        opens_with(header@, payload@.len() as int + 4) ==> ({
            let read = probe.after(ProbeEvent::Header(Some(header)));
            let next = read.after(ProbeEvent::Payload(payload));
            &&& read.step == ProbeStep::Payload(payload@.len() as usize)
            &&& next.step is Header
            &&& next.bytes == probe.bytes + 4 + payload@.len()
            &&& next.refs == match advertised_name(utf8_lossy(payload@)) {
                Some(name) => probe.refs + seq![name],
                None => probe.refs,
            }
            &&& next.written == probe.written
        }),
        (exists|n: int| n < 4 && opens_with(header@, n)) ==> ({
            let next = probe.after(ProbeEvent::Header(Some(header)));
            &&& next.step is Flush
            &&& next.bytes == probe.bytes + 4
            &&& next.refs == probe.refs
        }),
        ({
            let next = probe.after(ProbeEvent::Header(None));
            if probe.bytes == 0 && probe.refs.len() == 0 {
                next.step is Failed && next.failure == Some(
                    ProbeErrorView::NotReceivePack { remote: probe.remote },
                )
            } else {
                next.step is Flush && next.bytes == probe.bytes && next.refs == probe.refs
            }
        }),
{
    if opens_with(header@, payload@.len() as int + 4) {
        law_a_header_is_a_number(header@, payload@.len() + 4);
        if let Some(name) = advertised_name(utf8_lossy(payload@)) {
            assert(probe.refs.push(name) =~= probe.refs + seq![name]);
        }
    }
    if exists|n: int| n < 4 && opens_with(header@, n) {
        let n = choose|n: int| n < 4 && opens_with(header@, n);
        law_a_header_is_a_number(header@, n as nat);
    }
}

/// A probe that fails says whether the server was not reached or the conversation
/// broke off.
pub proof fn law_a_failed_probe_says_where(probe: ProbeView, said: String)
    ensures
        probe.after(ProbeEvent::Failed(said)).step is Failed,
        probe.after(ProbeEvent::Failed(said)).failure == Some(
            if probe.step is Connect {
                ProbeErrorView::Connect { remote: probe.remote, source: said@ }
            } else {
                ProbeErrorView::Exchange { remote: probe.remote, source: said@ }
            },
        ),
{
}

/// A step of a probe ends in the answer to what it asked for, and in no other, or
/// fails.
pub proof fn law_a_step_of_a_probe_ends_in_its_own_answer(probe: ProbeView, event: ProbeEvent)
    requires
        probe.bytes + 0xffff <= u64::MAX,
    ensures
        event is Connected ==> (probe.admits(event) <==> probe.step is Connect),
        event is Sent ==> (probe.admits(event) <==> probe.step is Open || probe.step is Flush),
        event is Header ==> (probe.admits(event) <==> probe.step is Header),
        event matches ProbeEvent::Payload(payload) ==> payload@.len() <= 0xffff ==> (probe.admits(
            event,
        ) <==> probe.step == ProbeStep::Payload(payload@.len() as usize)),
        event is Failed ==> (probe.admits(event) <==> !(probe.step is Done || probe.step
            is Failed)),
{
}

} // verus!
