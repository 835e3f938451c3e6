//! Splitting a receive-pack stream into protocol overhead and payload.
//!
//! Both directions of the exchange are framed as pkt-lines, and in both the
//! boundary of interest is the first flush-pkt:
//!
//! ```text
//! server to client   ref advertisement, 0000, ..., report-status
//! client to server   ref-update commands, 0000, the pack
//! ```
//!
//! One counter serves both ends: it is fed the bytes as they pass and tells how
//! many came up to the flush, how many pkt-lines those were, and how many came
//! after it.

use vstd::prelude::*;
use vstd::slice::slice_subrange;

verus! {

/// The split of one direction of a receive-pack exchange.
#[derive(Debug, Clone, Copy, PartialEq, Eq, Structural)]
pub struct WireCounts {
    /// Every byte that passed, whether framing was understood or not.
    pub total: u64,
    /// Bytes up to and with the first flush-pkt.
    pub pre_flush: u64,
    /// pkt-lines seen before that flush. On the advertising side this is the
    /// number of refs advertised; a repository without refs still sends one
    /// placeholder pkt-line.
    pub pre_flush_pkts: u64,
    /// Bytes after the first flush-pkt: the pack, or the report-status.
    pub post_flush: u64,
}

impl Default for WireCounts {
    fn default() -> (r: Self)
        ensures
            r.total == 0,
            r.pre_flush == 0,
            r.pre_flush_pkts == 0,
            r.post_flush == 0,
    {
        WireCounts { total: 0, pre_flush: 0, pre_flush_pkts: 0, post_flush: 0 }
    }
}

/// What a hexadecimal digit stands for.
pub open spec fn hex_value(b: u8) -> Option<nat> {
    if 48 <= b <= 57 {
        Some((b - 48) as nat)
    } else if 97 <= b <= 102 {
        Some((b - 87) as nat)
    } else if 65 <= b <= 70 {
        Some((b - 55) as nat)
    } else {
        None
    }
}

/// The number that hexadecimal digits stand for, if they are all digits.
pub open spec fn hex_number(digits: Seq<u8>) -> Option<nat>
    decreases digits.len(),
{
    if digits.len() == 0 {
        Some(0nat)
    } else {
        match (hex_number(digits.drop_last()), hex_value(digits.last())) {
            (Some(high), Some(low)) => Some(high * 16 + low),
            _ => None,
        }
    }
}

/// The length that a header of four bytes announces: the number that its four
/// hexadecimal digits stand for. A header with any other byte announces none.
pub open spec fn pkt_length(header: Seq<u8>) -> Option<nat> {
    hex_number(header)
}

/// How a stream divides: the bytes up to the flush, the pkt-lines among them,
/// and the bytes after it.
pub struct Division {
    pub pre: nat,
    pub pkts: nat,
    pub post: nat,
}

impl Division {
    pub open spec fn plus(self, other: Division) -> Division {
        Division {
            pre: self.pre + other.pre,
            pkts: self.pkts + other.pkts,
            post: self.post + other.post,
        }
    }
}

/// How the stream `s` divides at its first flush-pkt.
///
/// A pkt-line is a header of four bytes and the payload that it announces. A
/// header of 0 is the flush; 1 and 2 are pkt-lines without a payload. From a
/// header that announces no possible length on, the stream has no framing, and
/// the rest counts as following the flush.
pub open spec fn division(s: Seq<u8>) -> Division
    decreases s.len(),
{
    if s.len() < 4 {
        Division { pre: s.len(), pkts: 0, post: 0 }
    } else {
        match pkt_length(s.subrange(0, 4)) {
            Some(n) => if n == 0 {
                Division { pre: 4, pkts: 0, post: (s.len() - 4) as nat }
            } else if n == 1 || n == 2 {
                Division { pre: 4, pkts: 1, post: 0 }.plus(
                    division(s.subrange(4, s.len() as int)),
                )
            } else if n == 3 {
                Division { pre: 4, pkts: 0, post: (s.len() - 4) as nat }
            } else if s.len() <= n {
                Division { pre: s.len(), pkts: 1, post: 0 }
            } else {
                Division { pre: n, pkts: 1, post: 0 }.plus(
                    division(s.subrange(n as int, s.len() as int)),
                )
            },
            None => Division { pre: 4, pkts: 0, post: (s.len() - 4) as nat },
        }
    }
}

/// The counts of a stream.
pub open spec fn counts_of(s: Seq<u8>, counts: WireCounts) -> bool {
    &&& counts.total == s.len()
    &&& counts.pre_flush == division(s).pre
    &&& counts.pre_flush_pkts == division(s).pkts
    &&& counts.post_flush == division(s).post
}

fn hex_digit_value(b: u8) -> (r: Option<usize>)
    ensures
        match r {
            Some(v) => hex_value(b) == Some(v as nat) && v < 16,
            None => hex_value(b) is None,
        },
{
    if 48 <= b && b <= 57 {
        Some((b - 48) as usize)
    } else if 97 <= b && b <= 102 {
        Some((b - 87) as usize)
    } else if 65 <= b && b <= 70 {
        Some((b - 55) as usize)
    } else {
        None
    }
}

/// Parses the four bytes of a pkt-line's length header.
pub fn parse_length(header: &[u8; 4]) -> (r: Option<usize>)
    ensures
        match r {
            Some(n) => pkt_length(header@) == Some(n as nat) && n <= 0xffff,
            None => pkt_length(header@) is None,
        },
{
    let ghost digits = header@;
    proof {
        assert(digits.take(0) =~= Seq::<u8>::empty());
    }
    let mut n: usize = 0;
    let mut i: usize = 0;
    let mut bound: usize = 1;
    while i < 4
        invariant
            i <= 4,
            digits == header@,
            hex_number(digits.take(i as int)) == Some(n as nat),
            n < bound,
            i == 0 ==> bound == 1,
            i == 1 ==> bound == 16,
            i == 2 ==> bound == 256,
            i == 3 ==> bound == 4096,
            i == 4 ==> bound == 65536,
        decreases 4 - i,
    {
        let ghost here = digits.take(i + 1);
        proof {
            assert(here.drop_last() =~= digits.take(i as int));
            assert(here.last() == header@[i as int]);
        }
        match hex_digit_value(header[i]) {
            Some(v) => {
                n = n * 16 + v;
                bound = bound * 16;
            },
            None => {
                proof {
                    lemma_hex_number_none(digits, i + 1);
                }
                return None;
            },
        }
        i += 1;
    }
    proof {
        assert(digits.take(4) =~= digits);
    }
    Some(n)
}

/// A header announces a length exactly where its four bytes are hexadecimal
/// digits.
pub proof fn law_a_length_is_four_hexadecimal_digits(header: Seq<u8>)
    requires
        header.len() == 4,
    ensures
        pkt_length(header) is Some <==> forall|i: int|
            0 <= i < 4 ==> hex_value(#[trigger] header[i]) is Some,
        pkt_length(header) matches Some(n) ==> n <= 0xffff,
{
    reveal_with_fuel(hex_number, 5);
    let three = header.drop_last();
    let two = three.drop_last();
    let one = two.drop_last();
    assert(one.drop_last() =~= Seq::<u8>::empty());
    assert(one[0] == header[0] && two[1] == header[1] && three[2] == header[2]);
    assert(one.last() == header[0] && two.last() == header[1] && three.last() == header[2]);
}

proof fn lemma_hex_number_none(digits: Seq<u8>, n: int)
    requires
        0 <= n <= digits.len(),
        hex_number(digits.take(n)) is None,
    ensures
        hex_number(digits) is None,
    decreases digits.len(),
{
    if n == digits.len() {
        assert(digits.take(n) =~= digits);
    } else {
        assert(digits.drop_last().take(n) =~= digits.take(n));
        lemma_hex_number_none(digits.drop_last(), n);
    }
}

/// Where the counter is in the stream.
#[derive(Debug, Clone, Copy, PartialEq, Eq, Structural)]
enum State {
    /// Reading a length header.
    Header,
    /// Skipping the payload of the pkt-line whose header was just read.
    Payload,
    /// Past the first flush-pkt.
    AfterFlush,
    /// The framing stopped making sense.
    Unframed,
}

/// The counter behind [`FlushSplit`].
#[derive(Clone, Copy)]
struct Counter {
    state: State,
    counts: WireCounts,
    /// The bytes of the current length header gathered so far.
    header: [u8; 4],
    header_len: usize,
    /// Payload bytes still to skip in the current pkt-line.
    remaining: usize,
    /// What was counted.
    stream: Ghost<Seq<u8>>,
}

impl Counter {
    /// What `t` adds to the division when it follows the stream so far.
    spec fn continuation(self, t: Seq<u8>) -> Division {
        match self.state {
            State::Header => {
                let whole = division(self.header@.take(self.header_len as int) + t);
                Division {
                    pre: (whole.pre - self.header_len) as nat,
                    pkts: whole.pkts,
                    post: whole.post,
                }
            },
            State::Payload => if t.len() <= self.remaining {
                Division { pre: t.len(), pkts: 0, post: 0 }
            } else {
                Division { pre: self.remaining as nat, pkts: 0, post: 0 }.plus(
                    division(t.subrange(self.remaining as int, t.len() as int)),
                )
            },
            _ => Division { pre: 0, pkts: 0, post: t.len() },
        }
    }

    spec fn divided(self) -> Division {
        Division {
            pre: self.counts.pre_flush as nat,
            pkts: self.counts.pre_flush_pkts as nat,
            post: self.counts.post_flush as nat,
        }
    }

    spec fn well_formed(self) -> bool {
        &&& self.header_len < 4
        &&& self.state is Payload ==> self.remaining > 0
        &&& self.counts.total == self.stream@.len()
        &&& self.counts.pre_flush + self.counts.post_flush == self.counts.total
        &&& self.counts.pre_flush_pkts <= self.counts.pre_flush
        &&& self.continues()
    }

    /// However the stream goes on, its division is what was counted and what
    /// the rest adds.
    spec fn continues(self) -> bool {
        forall|t: Seq<u8>| #[trigger]
            division(self.stream@ + t) == self.divided().plus(self.continuation(t))
    }

    fn new() -> (r: Self)
        ensures
            r.well_formed(),
            r.stream@ == Seq::<u8>::empty(),
    {
        let r = Counter {
            state: State::Header,
            counts: WireCounts { total: 0, pre_flush: 0, pre_flush_pkts: 0, post_flush: 0 },
            header: [0, 0, 0, 0],
            header_len: 0,
            remaining: 0,
            stream: Ghost(Seq::empty()),
        };
        proof {
            assert forall|t: Seq<u8>| #[trigger]
                division(r.stream@ + t) == r.divided().plus(r.continuation(t)) by {
                assert(r.stream@ + t =~= t);
                assert(r.header@.take(0) + t =~= t);
            }
        }
        r
    }

    /// Counts bytes that follow the flush, or that have no framing.
    fn count_rest(&mut self, rest: &[u8])
        requires
            old(self).well_formed(),
            old(self).state is AfterFlush || old(self).state is Unframed,
            old(self).stream@.len() + rest@.len() <= u64::MAX,
        ensures
            final(self).well_formed(),
            final(self).stream@ == old(self).stream@ + rest@,
    {
        let ghost before = *self;
        self.counts.total = self.counts.total + rest.len() as u64;
        self.counts.post_flush = self.counts.post_flush + rest.len() as u64;
        self.stream = Ghost(self.stream@ + rest@);
        proof {
            let after = *self;
            assert forall|t: Seq<u8>| #[trigger]
                division(after.stream@ + t) == after.divided().plus(after.continuation(t)) by {
                assert(after.stream@ + t =~= before.stream@ + (rest@ + t));
            }
        }
    }

    /// Counts payload bytes of the current pkt-line.
    fn count_payload(&mut self, part: &[u8])
        requires
            old(self).well_formed(),
            old(self).state is Payload,
            0 < part@.len() <= old(self).remaining,
            old(self).stream@.len() + part@.len() <= u64::MAX,
        ensures
            final(self).well_formed(),
            final(self).stream@ == old(self).stream@ + part@,
    {
        let ghost before = *self;
        self.counts.total = self.counts.total + part.len() as u64;
        self.counts.pre_flush = self.counts.pre_flush + part.len() as u64;
        self.remaining = self.remaining - part.len();
        self.stream = Ghost(self.stream@ + part@);
        if self.remaining == 0 {
            self.state = State::Header;
            self.header_len = 0;
        }
        proof {
            let after = *self;
            assert forall|t: Seq<u8>| #[trigger]
                division(after.stream@ + t) == after.divided().plus(after.continuation(t)) by {
                let more = part@ + t;
                assert(after.stream@ + t =~= before.stream@ + more);
                if after.state is Header {
                    assert(after.header@.take(0) + t =~= t);
                    if more.len() <= before.remaining {
                        assert(t =~= Seq::<u8>::empty());
                    } else {
                        assert(more.subrange(before.remaining as int, more.len() as int) =~= t);
                    }
                } else if more.len() > before.remaining {
                    assert(more.subrange(before.remaining as int, more.len() as int)
                        =~= t.subrange(after.remaining as int, t.len() as int));
                }
            }
        }
    }

    /// Counts bytes of a length header that do not complete it.
    fn count_partial_header(&mut self, part: &[u8])
        requires
            old(self).well_formed(),
            old(self).state is Header,
            old(self).header_len + part@.len() < 4,
            old(self).stream@.len() + part@.len() <= u64::MAX,
        ensures
            final(self).well_formed(),
            final(self).stream@ == old(self).stream@ + part@,
    {
        let ghost before = *self;
        let header = self.gather(part);
        self.header = header;
        self.header_len = self.header_len + part.len();
        self.counts.total = self.counts.total + part.len() as u64;
        self.counts.pre_flush = self.counts.pre_flush + part.len() as u64;
        self.stream = Ghost(self.stream@ + part@);
        proof {
            let after = *self;
            assert forall|t: Seq<u8>| #[trigger]
                division(after.stream@ + t) == after.divided().plus(after.continuation(t)) by {
                let more = part@ + t;
                assert(after.stream@ + t =~= before.stream@ + more);
                assert(before.header@.take(before.header_len as int) + more
                    =~= after.header@.take(after.header_len as int) + t);
                lemma_division_pre(after.header@.take(after.header_len as int) + t);
            }
        }
    }

    /// The header with `part` written behind what was gathered so far.
    fn gather(&self, part: &[u8]) -> (r: [u8; 4])
        requires
            self.header_len + part@.len() <= 4,
        ensures
            r@.take(self.header_len + part@.len()) == self.header@.take(self.header_len as int)
                + part@,
    {
        let mut header = self.header;
        let mut i: usize = 0;
        while i < part.len()
            invariant
                i <= part@.len(),
                self.header_len + part@.len() <= 4,
                header@.take(self.header_len + i) =~= self.header@.take(self.header_len as int)
                    + part@.take(i as int),
            decreases part@.len() - i,
        {
            let ghost was = header@;
            header[self.header_len + i] = part[i];
            proof {
                assert(header@.take(self.header_len + i + 1) =~= was.take(self.header_len + i).push(
                    part@[i as int],
                ));
                assert(part@.take(i + 1) =~= part@.take(i as int).push(part@[i as int]));
            }
            i += 1;
        }
        proof {
            assert(part@.take(part@.len() as int) =~= part@);
        }
        header
    }

    /// Counts the bytes that complete a length header, and acts on it.
    fn count_header(&mut self, part: &[u8])
        requires
            old(self).well_formed(),
            old(self).state is Header,
            old(self).header_len + part@.len() == 4,
            old(self).stream@.len() + part@.len() <= u64::MAX,
        ensures
            final(self).well_formed(),
            final(self).stream@ == old(self).stream@ + part@,
    {
        let ghost before = *self;
        let header = self.gather(part);
        self.header = header;
        self.header_len = 0;
        self.counts.total = self.counts.total + part.len() as u64;
        self.counts.pre_flush = self.counts.pre_flush + part.len() as u64;
        self.stream = Ghost(self.stream@ + part@);
        let length = parse_length(&header);
        match length {
            Some(n) => {
                if n == 0 {
                    self.state = State::AfterFlush;
                } else if n == 1 || n == 2 {
                    self.counts.pre_flush_pkts = self.counts.pre_flush_pkts + 1;
                    self.state = State::Header;
                } else if n >= 4 {
                    self.counts.pre_flush_pkts = self.counts.pre_flush_pkts + 1;
                    self.remaining = n - 4;
                    if n == 4 {
                        self.state = State::Header;
                    } else {
                        self.state = State::Payload;
                    }
                } else {
                    self.state = State::Unframed;
                }
            },
            None => {
                self.state = State::Unframed;
            },
        }
        proof {
            let after = *self;
            assert forall|t: Seq<u8>| #[trigger]
                division(after.stream@ + t) == after.divided().plus(after.continuation(t)) by {
                let more = part@ + t;
                assert(after.stream@ + t =~= before.stream@ + more);
                let whole = header@ + t;
                assert(header@.take(4) =~= header@);
                assert(before.header@.take(before.header_len as int) + more =~= whole);
                assert(whole.subrange(0, 4) =~= header@);
                assert(whole.subrange(4, whole.len() as int) =~= t);
                assert(after.header@.take(0) + t =~= t);
                match length {
                    Some(n) => {
                        if n >= 4 && whole.len() > n {
                            assert(whole.subrange(n as int, whole.len() as int) =~= t.subrange(
                                n - 4,
                                t.len() as int,
                            ));
                            assert(t.subrange(0, t.len() as int) =~= t);
                        }
                        if n == 4 && whole.len() <= n {
                            assert(t =~= Seq::<u8>::empty());
                        }
                    },
                    None => {},
                }
            }
        }
    }

    fn feed(&mut self, bytes: &[u8])
        requires
            old(self).well_formed(),
            old(self).stream@.len() + bytes@.len() <= u64::MAX,
        ensures
            final(self).well_formed(),
            final(self).stream@ == old(self).stream@ + bytes@,
    {
        let ghost start = self.stream@;
        let mut rest = bytes;
        let ghost mut done = Seq::<u8>::empty();
        proof {
            assert(start + done =~= start);
            assert(done + rest@ =~= bytes@);
        }
        while rest.len() > 0
            invariant
                self.well_formed(),
                self.stream@ == start + done,
                done + rest@ == bytes@,
                start.len() + bytes@.len() <= u64::MAX,
            decreases rest@.len(),
        {
            let take: usize = match self.state {
                State::Header => if rest.len() < 4 - self.header_len {
                    rest.len()
                } else {
                    4 - self.header_len
                },
                State::Payload => if rest.len() < self.remaining {
                    rest.len()
                } else {
                    self.remaining
                },
                _ => rest.len(),
            };
            let part = slice_subrange(rest, 0, take);
            match self.state {
                State::Header => {
                    if self.header_len + take < 4 {
                        self.count_partial_header(part);
                    } else {
                        self.count_header(part);
                    }
                },
                State::Payload => {
                    self.count_payload(part);
                },
                _ => {
                    self.count_rest(part);
                },
            }
            let tail = slice_subrange(rest, take, rest.len());
            proof {
                assert(rest@ =~= part@ + tail@);
                assert(start + (done + part@) =~= (start + done) + part@);
                assert((done + part@) + tail@ =~= done + rest@);
                done = done + part@;
            }
            rest = tail;
        }
        proof {
            assert(done =~= bytes@);
        }
    }
}

proof fn lemma_division_pre(s: Seq<u8>)
    ensures
        s.len() <= 4 ==> division(s).pre == s.len(),
        s.len() >= 4 ==> division(s).pre >= 4,
        division(s).pre + division(s).post == s.len(),
        division(s).pkts * 4 <= division(s).pre,
    decreases s.len(),
{
    if s.len() >= 4 {
        lemma_division_pre(s.subrange(4, s.len() as int));
        match pkt_length(s.subrange(0, 4)) {
            Some(n) => {
                if 4 <= n < s.len() {
                    lemma_division_pre(s.subrange(n as int, s.len() as int));
                }
            },
            None => {},
        }
    }
}

/// Counts one direction of a receive-pack stream, splitting it at the first
/// flush-pkt. Its view is the stream that it was fed.
pub struct FlushSplit {
    counter: Counter,
}

impl View for FlushSplit {
    type V = Seq<u8>;

    closed spec fn view(&self) -> Seq<u8> {
        self.counter.stream@
    }
}

impl FlushSplit {
    #[verifier::type_invariant]
    spec fn well_formed(self) -> bool {
        self.counter.well_formed()
    }

    /// A counter positioned at the start of a stream.
    pub fn new() -> (r: Self)
        ensures
            r@ == Seq::<u8>::empty(),
    {
        FlushSplit { counter: Counter::new() }
    }

    /// Accounts for the next `bytes` of the stream.
    pub fn feed(&mut self, bytes: &[u8])
        requires
            old(self)@.len() + bytes@.len() <= u64::MAX,
        ensures
            final(self)@ == old(self)@ + bytes@,
    {
        proof {
            use_type_invariant(&*self);
        }
        let mut counter = self.counter;
        counter.feed(bytes);
        self.counter = counter;
    }

    /// The split so far.
    pub fn counts(&self) -> (r: WireCounts)
        ensures
            counts_of(self@, r),
    {
        proof {
            use_type_invariant(self);
            let c = self.counter;
            assert(c.stream@ + Seq::<u8>::empty() =~= c.stream@);
            assert(c.header@.take(c.header_len as int) + Seq::<u8>::empty() =~= c.header@.take(
                c.header_len as int,
            ));
            lemma_division_pre(c.header@.take(c.header_len as int));
        }
        self.counter.counts
    }
}

impl Default for FlushSplit {
    fn default() -> (r: Self)
        ensures
            r@ == Seq::<u8>::empty(),
    {
        Self::new()
    }
}

/// Whether the framing of `s` has ended, at a flush-pkt or at a header that
/// announces no possible length.
pub open spec fn framing_ended(s: Seq<u8>) -> bool
    decreases s.len(),
{
    if s.len() < 4 {
        false
    } else {
        match pkt_length(s.subrange(0, 4)) {
            Some(n) => if n == 0 || n == 3 {
                true
            } else if n == 1 || n == 2 {
                framing_ended(s.subrange(4, s.len() as int))
            } else if s.len() <= n {
                false
            } else {
                framing_ended(s.subrange(n as int, s.len() as int))
            },
            None => true,
        }
    }
}

/// Every byte of a stream is on one side of the split or on the other, and
/// every pkt-line before the flush takes at least its header.
pub proof fn law_every_byte_is_counted_once(s: Seq<u8>)
    ensures
        division(s).pre + division(s).post == s.len(),
        4 * division(s).pkts <= division(s).pre,
{
    lemma_division_pre(s);
}

/// Where the chunks of a stream begin and end does not matter: the counts are
/// those of the stream, however it was cut.
pub proof fn law_chunk_boundaries_do_not_matter(
    a: Seq<u8>,
    b: Seq<u8>,
    c: Seq<u8>,
    one: WireCounts,
    other: WireCounts,
)
    requires
        counts_of((a + b) + c, one),
        counts_of(a + (b + c), other),
    ensures
        one == other,
{
    assert((a + b) + c =~= a + (b + c));
}

/// What follows the flush is never framed again, whatever it looks like.
pub proof fn law_bytes_after_the_flush_are_never_reinterpreted(s: Seq<u8>, t: Seq<u8>)
    requires
        framing_ended(s),
    ensures
        framing_ended(s + t),
        division(s + t) == division(s).plus(Division { pre: 0, pkts: 0, post: t.len() }),
    decreases s.len(),
{
    let whole = s + t;
    assert(whole.subrange(0, 4) =~= s.subrange(0, 4));
    match pkt_length(s.subrange(0, 4)) {
        Some(n) => {
            if n == 1 || n == 2 {
                assert(whole.subrange(4, whole.len() as int) =~= s.subrange(4, s.len() as int) + t);
                law_bytes_after_the_flush_are_never_reinterpreted(
                    s.subrange(4, s.len() as int),
                    t,
                );
            } else if n >= 4 {
                assert(whole.subrange(n as int, whole.len() as int) =~= s.subrange(
                    n as int,
                    s.len() as int,
                ) + t);
                law_bytes_after_the_flush_are_never_reinterpreted(
                    s.subrange(n as int, s.len() as int),
                    t,
                );
            }
        },
        None => {},
    }
}

/// What a read from the source of a pump gave.
#[derive(Debug, Clone, Copy, PartialEq, Eq, Structural)]
pub enum ReadOutcome {
    /// The source has ended.
    Eof,
    /// Bytes came.
    Data,
    /// The read was interrupted before any byte came.
    Interrupted,
    /// The read failed.
    Failed,
}

/// What a pump does next.
#[derive(Debug, Clone, Copy, PartialEq, Eq, Structural)]
pub enum PumpAction {
    /// Read from the source.
    Read,
    /// Write what was read, in full.
    Write,
    /// Flush the sink and end.
    Stop,
}

/// Decides the steps of a copy from a source to a sink that counts what
/// passes. Its view is what was passed on.
///
/// An error on either side ends the copy with what passed so far.
pub struct Pump {
    split: FlushSplit,
}

impl View for Pump {
    type V = Seq<u8>;

    closed spec fn view(&self) -> Seq<u8> {
        self.split@
    }
}

/// What follows a read.
pub open spec fn behind_read(outcome: ReadOutcome) -> PumpAction {
    match outcome {
        ReadOutcome::Eof => PumpAction::Stop,
        ReadOutcome::Data => PumpAction::Write,
        ReadOutcome::Interrupted => PumpAction::Read,
        ReadOutcome::Failed => PumpAction::Stop,
    }
}

/// What follows a write of `bytes` behind what was passed on, and what is passed
/// on then.
pub open spec fn behind_write(
    passed: Seq<u8>,
    bytes: Seq<u8>,
    written: bool,
) -> (PumpAction, Seq<u8>) {
    if written {
        (PumpAction::Read, passed + bytes)
    } else {
        (PumpAction::Stop, passed)
    }
}

impl Pump {
    /// A pump that has passed nothing on.
    pub fn new() -> (r: Self)
        ensures
            r@ == Seq::<u8>::empty(),
    {
        Pump { split: FlushSplit::new() }
    }

    /// What follows a read.
    pub fn after_read(&self, outcome: ReadOutcome) -> (r: PumpAction)
        ensures
            r == behind_read(outcome),
    {
        match outcome {
            ReadOutcome::Eof => PumpAction::Stop,
            ReadOutcome::Data => PumpAction::Write,
            ReadOutcome::Interrupted => PumpAction::Read,
            ReadOutcome::Failed => PumpAction::Stop,
        }
    }

    /// What follows a write of `bytes`: they count only once the sink took them.
    pub fn after_write(&mut self, bytes: &[u8], written: bool) -> (r: PumpAction)
        requires
            old(self)@.len() + bytes@.len() <= u64::MAX,
        ensures
            (r, final(self)@) == behind_write(old(self)@, bytes@, written),
    {
        if written {
            self.split.feed(bytes);
            PumpAction::Read
        } else {
            PumpAction::Stop
        }
    }

    /// The counts of what was passed on.
    pub fn counts(&self) -> (r: WireCounts)
        ensures
            counts_of(self@, r),
    {
        self.split.counts()
    }
}

/// Whether a byte is the hexadecimal digit for `v`, in either case.
pub open spec fn is_hex_digit_of(b: u8, v: int) -> bool {
    ||| 0 <= v <= 9 && b == '0' as int + v
    ||| 10 <= v <= 15 && b == 'a' as int + v - 10
    ||| 10 <= v <= 15 && b == 'A' as int + v - 10
}

/// Whether four bytes stand at the front of `s` that are the hexadecimal digits
/// of `n`.
pub open spec fn opens_with(s: Seq<u8>, n: int) -> bool {
    &&& s.len() >= 4
    &&& 0 <= n <= 0xffff
    &&& is_hex_digit_of(s[0], n / 4096)
    &&& is_hex_digit_of(s[1], n / 256 % 16)
    &&& is_hex_digit_of(s[2], n / 16 % 16)
    &&& is_hex_digit_of(s[3], n % 16)
}

proof fn lemma_hex_value(b: u8)
    ensures
        forall|v: int| #[trigger] is_hex_digit_of(b, v) <==> hex_value(b) == Some(v as nat) && v >= 0,
        hex_value(b) matches Some(v) ==> v < 16 && is_hex_digit_of(b, v as int),
{
}

proof fn lemma_four_digits(header: Seq<u8>)
    requires
        header.len() == 4,
    ensures
        pkt_length(header) == match (
            hex_value(header[0]),
            hex_value(header[1]),
            hex_value(header[2]),
            hex_value(header[3]),
        ) {
            (Some(a), Some(b), Some(c), Some(d)) => Some(((a * 16 + b) * 16 + c) * 16 + d),
            _ => None,
        },
{
    reveal_with_fuel(hex_number, 5);
    let three = header.drop_last();
    let two = three.drop_last();
    let one = two.drop_last();
    assert(one.drop_last() =~= Seq::<u8>::empty());
    assert(one.last() == header[0] && two.last() == header[1] && three.last() == header[2]);
}

proof fn lemma_digits_of_number(a: nat, b: nat, c: nat, d: nat, n: int)
    requires
        a < 16,
        b < 16,
        c < 16,
        d < 16,
        0 <= n <= 0xffff,
    ensures
        ((a * 16 + b) * 16 + c) * 16 + d == n <==> a == n / 4096 && b == n / 256 % 16 && c == n / 16
            % 16 && d == n % 16,
{
}

/// A header announces the number whose digits it is made of, and none where one
/// of its bytes is no digit.
pub proof fn law_a_header_is_a_number(header: Seq<u8>, n: nat)
    requires
        header.len() == 4,
    ensures
        pkt_length(header) == Some(n) <==> opens_with(header, n as int),
        pkt_length(header) is None <==> exists|i: int|
            0 <= i < 4 && forall|v: int| !is_hex_digit_of(#[trigger] header[i], v),
{
    lemma_four_digits(header);
    lemma_hex_value(header[0]);
    lemma_hex_value(header[1]);
    lemma_hex_value(header[2]);
    lemma_hex_value(header[3]);
    if let (Some(a), Some(b), Some(c), Some(d)) = (
        hex_value(header[0]),
        hex_value(header[1]),
        hex_value(header[2]),
        hex_value(header[3]),
    ) {
        if n <= 0xffff {
            lemma_digits_of_number(a, b, c, d, n as int);
        }
    } else {
        let i: int = if hex_value(header[0]) is None {
            0
        } else if hex_value(header[1]) is None {
            1
        } else if hex_value(header[2]) is None {
            2
        } else {
            3
        };
        assert(hex_value(header[i]) is None);
        assert(forall|v: int| !is_hex_digit_of(header[i], v));
    }
}

/// A complete pkt-line at the front of a stream counts as one, with all of its
/// bytes, and what follows counts as if it stood alone.
pub proof fn law_a_pkt_line_counts_once(line: Seq<u8>, rest: Seq<u8>)
    requires
        line.len() >= 4,
        opens_with(line, line.len() as int),
    ensures
        division(line + rest).pre == line.len() + division(rest).pre,
        division(line + rest).pkts == 1 + division(rest).pkts,
        division(line + rest).post == division(rest).post,
{
    let s = line + rest;
    let n = line.len();
    law_a_header_is_a_number(s.subrange(0, 4), n);
    assert(s.subrange(n as int, s.len() as int) =~= rest);
    if rest.len() == 0 {
        assert(division(rest) == (Division { pre: 0, pkts: 0, post: 0 }));
    }
}

/// A stream divides at its flush-pkt, the header of zero, and counts everything
/// behind it apart. A header of one or two is a pkt-line by itself. A header of
/// three, or one that is no number, ends the framing. What breaks off counts as
/// far as it goes: as a pkt-line once its header is there.
pub proof fn law_a_stream_divides_at_its_flush(s: Seq<u8>, n: int)
    ensures
        s.len() < 4 ==> division(s) == (Division { pre: s.len(), pkts: 0, post: 0 }),
        opens_with(s, 0) ==> division(s) == (Division {
            pre: 4,
            pkts: 0,
            post: (s.len() - 4) as nat,
        }),
        opens_with(s, 1) || opens_with(s, 2) ==> {
            &&& division(s).pre == 4 + division(s.skip(4)).pre
            &&& division(s).pkts == 1 + division(s.skip(4)).pkts
            &&& division(s).post == division(s.skip(4)).post
        },
        s.len() >= 4 && (opens_with(s, 3) || forall|k: int| !#[trigger] opens_with(s, k))
            ==> division(s) == (Division { pre: 4, pkts: 0, post: (s.len() - 4) as nat }),
        opens_with(s, n) && s.len() <= n ==> division(s) == (Division {
            pre: s.len(),
            pkts: 1,
            post: 0,
        }),
{
    if s.len() >= 4 {
        let header = s.subrange(0, 4);
        law_a_header_is_a_number(header, 0);
        law_a_header_is_a_number(header, 1);
        law_a_header_is_a_number(header, 2);
        law_a_header_is_a_number(header, 3);
        assert(s.subrange(4, s.len() as int) =~= s.skip(4));
        if let Some(k) = pkt_length(header) {
            law_a_header_is_a_number(header, k);
            assert(opens_with(header, k as int));
            assert(opens_with(s, k as int));
        }
        if opens_with(s, n) {
            assert(opens_with(header, n));
            law_a_header_is_a_number(header, n as nat);
        }
    }
}

/// Byte strings one behind the other.
pub open spec fn in_a_row(parts: Seq<Seq<u8>>) -> Seq<u8>
    decreases parts.len(),
{
    if parts.len() == 0 {
        Seq::empty()
    } else {
        parts[0] + in_a_row(parts.skip(1))
    }
}

/// In a stream of pkt-lines, a flush-pkt and a pack, the pkt-lines are counted
/// one by one, and the bytes of the pack apart from theirs.
pub proof fn law_pkt_lines_and_the_pack_are_told_apart(
    lines: Seq<Seq<u8>>,
    flush: Seq<u8>,
    pack: Seq<u8>,
)
    requires
        forall|i: int|
            0 <= i < lines.len() ==> (#[trigger] lines[i]).len() >= 4 && opens_with(
                lines[i],
                lines[i].len() as int,
            ),
        flush == seq![48u8, 48, 48, 48],
    ensures
        division(in_a_row(lines) + flush + pack) == (Division {
            pre: in_a_row(lines).len() + 4,
            pkts: lines.len(),
            post: pack.len(),
        }),
    decreases lines.len(),
{
    let s = in_a_row(lines) + flush + pack;
    if lines.len() == 0 {
        assert(s =~= flush + pack);
        assert(opens_with(s, 0));
        law_a_stream_divides_at_its_flush(s, 0);
    } else {
        let more = lines.skip(1);
        assert forall|i: int| 0 <= i < more.len() implies (#[trigger] more[i]).len() >= 4
            && opens_with(more[i], more[i].len() as int) by {
            assert(more[i] == lines[i + 1]);
        }
        let rest = in_a_row(more) + flush + pack;
        law_pkt_lines_and_the_pack_are_told_apart(more, flush, pack);
        assert(s =~= lines[0] + rest);
        law_a_pkt_line_counts_once(lines[0], rest);
    }
}

/// A pump goes on while bytes come and are taken: it ends where the source ends or
/// fails and where the sink fails, an interruption changes nothing, and what the
/// sink did not take is not counted.
pub proof fn law_a_pump_counts_what_was_passed_on(
    passed: Seq<u8>,
    bytes: Seq<u8>,
    outcome: ReadOutcome,
)
    ensures
        behind_read(outcome) == PumpAction::Write <==> outcome == ReadOutcome::Data,
        behind_read(outcome) == PumpAction::Read <==> outcome == ReadOutcome::Interrupted,
        behind_read(outcome) == PumpAction::Stop <==> outcome == ReadOutcome::Eof || outcome
            == ReadOutcome::Failed,
        behind_write(passed, bytes, true).0 == PumpAction::Read,
        behind_write(passed, bytes, true).1.len() == passed.len() + bytes.len(),
        passed.is_prefix_of(behind_write(passed, bytes, true).1),
        bytes.is_suffix_of(behind_write(passed, bytes, true).1),
        behind_write(passed, bytes, false).0 == PumpAction::Stop,
        behind_write(passed, bytes, false).1 == passed,
{
    let all = behind_write(passed, bytes, true).1;
    assert(all.subrange(0, passed.len() as int) =~= passed);
    assert(all.subrange(passed.len() as int, all.len() as int) =~= bytes);
}

} // verus!
