//! Counting what crosses the wire.

use git_full_send::pktline::{
    parse_length, FlushSplit, Pump, PumpAction, ReadOutcome, WireCounts,
};

/// A pkt-line carrying `payload`, as git frames it.
fn pkt(payload: &str) -> Vec<u8> {
    let mut out = format!("{:04x}", payload.len() + 4).into_bytes();
    out.extend_from_slice(payload.as_bytes());
    out
}

/// A ref advertisement of `n` refs, then a flush, then a pack.
fn advertisement(n: usize, pack: &[u8]) -> Vec<u8> {
    let mut stream = Vec::new();
    for i in 0..n {
        stream.extend(pkt(&format!(
            "{:040x} refs/heads/branch-{i}\n",
            0xabcdefu64 + i as u64
        )));
    }
    stream.extend_from_slice(b"0000");
    stream.extend_from_slice(pack);
    stream
}

#[test]
fn splits_the_advertisement_from_what_follows_it() {
    let stream = advertisement(3, b"PACK-and-then-some");
    let mut split = FlushSplit::new();
    split.feed(&stream);
    let counts = split.counts();

    assert_eq!(counts.pre_flush_pkts, 3, "one pkt-line per ref");
    assert_eq!(counts.post_flush, "PACK-and-then-some".len() as u64);
    assert_eq!(
        counts.pre_flush,
        stream.len() as u64 - counts.post_flush,
        "the flush-pkt itself belongs to the advertisement",
    );
    assert_eq!(counts.total, stream.len() as u64);
}

#[test]
fn chunk_boundaries_do_not_matter() {
    let stream = advertisement(4, b"0123456789");
    let whole = {
        let mut split = FlushSplit::new();
        split.feed(&stream);
        split.counts()
    };

    for chunk in [1, 2, 3, 5, 7, 64] {
        let mut split = FlushSplit::new();
        for part in stream.chunks(chunk) {
            split.feed(part);
        }
        assert_eq!(
            split.counts(),
            whole,
            "same counts when fed in chunks of {chunk}",
        );
    }
}

#[test]
fn a_bare_flush_is_four_pre_flush_bytes_and_no_pkts() {
    let mut split = FlushSplit::new();
    split.feed(b"0000");
    assert_eq!(
        split.counts(),
        WireCounts {
            total: 4,
            pre_flush: 4,
            pre_flush_pkts: 0,
            post_flush: 0,
        },
    );
}

#[test]
fn an_empty_stream_counts_nothing() {
    let split = FlushSplit::new();
    assert_eq!(split.counts(), WireCounts::default());
}

#[test]
fn a_malformed_header_stops_the_split_instead_of_guessing() {
    let mut split = FlushSplit::new();
    split.feed(b"not-a-pkt-line-header-at-all");
    let counts = split.counts();
    assert_eq!(counts.total, 28);
    assert_eq!(counts.pre_flush, 4, "only the header we tried to read");
    assert_eq!(counts.post_flush, 24, "the rest is attributed, not framed");
    assert_eq!(counts.pre_flush_pkts, 0);
}

#[test]
fn post_flush_bytes_are_never_reinterpreted() {
    let framed_looking = pkt("this looks framed but is pack data");
    let mut split = FlushSplit::new();
    split.feed(b"0000");
    split.feed(&framed_looking);
    assert_eq!(split.counts().pre_flush_pkts, 0);
    assert_eq!(split.counts().post_flush, framed_looking.len() as u64);
}

/// Every byte is counted on one side of the flush, in whatever state the stream
/// breaks off.
#[test]
fn every_byte_is_counted_once() {
    let stream = advertisement(3, b"PACK");
    for end in 0..=stream.len() {
        let mut split = FlushSplit::default();
        split.feed(&stream[..end]);
        let counts = split.counts();
        assert_eq!(counts.total, end as u64);
        assert_eq!(counts.pre_flush + counts.post_flush, end as u64);
    }
}

#[test]
fn a_delimiter_and_short_headers_do_not_carry_a_payload() {
    for (header, length) in [
        (b"0000", Some(0)),
        (b"0001", Some(1)),
        (b"0004", Some(4)),
        (b"00fF", Some(255)),
        (b"+00a", None),
        (b"+004", None),
        (b"-001", None),
        (b"00 1", None),
        (b"++11", None),
        (b"00\xff\xff", None),
    ] {
        assert_eq!(parse_length(header), length, "{header:?}");
    }
}

/// What a reader and a writer that work in pieces do to a pump.
fn copy(stream: &[u8], chunk: usize, fails_after: usize) -> (Vec<u8>, WireCounts) {
    let mut pump = Pump::new();
    let mut out = Vec::new();
    let mut at = 0;
    let mut writes = 0;
    loop {
        let end = stream.len().min(at + chunk);
        let outcome = if at == end {
            ReadOutcome::Eof
        } else {
            ReadOutcome::Data
        };
        if pump.after_read(outcome) == PumpAction::Stop {
            break;
        }
        let bytes = &stream[at..end];
        let written = writes < fails_after;
        if written {
            out.extend_from_slice(bytes);
        }
        writes += 1;
        if pump.after_write(bytes, written) == PumpAction::Stop {
            break;
        }
        at = end;
    }
    (out, pump.counts())
}

#[test]
fn a_pump_passes_on_the_stream_and_counts_it() {
    let stream = advertisement(2, b"PACK");
    let mut split = FlushSplit::new();
    split.feed(&stream);
    for chunk in [1, 3, 1000] {
        let (out, counts) = copy(&stream, chunk, usize::MAX);
        assert_eq!(out, stream);
        assert_eq!(counts, split.counts());
    }
}

#[test]
fn a_pump_counts_only_what_was_written() {
    let stream = advertisement(2, b"PACK");
    let (out, counts) = copy(&stream, 10, 3);
    assert_eq!(out.len(), 30);
    assert_eq!(counts.total, 30);
}

#[test]
fn an_interrupted_read_is_tried_again_and_a_failed_one_ends_the_copy() {
    let pump = Pump::new();
    assert_eq!(pump.after_read(ReadOutcome::Interrupted), PumpAction::Read);
    assert_eq!(pump.after_read(ReadOutcome::Failed), PumpAction::Stop);
    assert_eq!(pump.after_read(ReadOutcome::Eof), PumpAction::Stop);
    assert_eq!(pump.after_read(ReadOutcome::Data), PumpAction::Write);
    assert_eq!(pump.counts(), WireCounts::default());
}
