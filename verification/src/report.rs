//! What the commands print for a person. Durations come as text: they are
//! measured and shown where the clocks are.

use vstd::prelude::*;

use crate::checkout::UpdateWorktreeReport;
use crate::display::{
    grouped, human_bytes, human_count, is_short, join_texts, padded_left, padded_right,
    push_padded_left, push_padded_right, separated, short_oid, size_text, wrap, wrapped,
};
use crate::doctor::{
    age_in_days, count_status, days_since, Check, CheckView, DoctorReport, ERROR, SECONDS_PER_DAY,
    WARN,
};
use crate::probe::ProbeReport;
use crate::push::PushWire;
use crate::select::SelectStats;
use crate::streams::{ReapOutcome, ReapedStream};
use crate::sync::SyncSummary;
use crate::text::{
    decimal, has_part, part_at, push_decimal, push_signed, push_text, signed_decimal, texts,
    words_of,
};
use crate::worktree::{ChangedPaths, IndexState, PathDelta};

verus! {

/// How long the phases of a sync took, as it is shown.
#[derive(Debug)]
pub struct SyncTimes {
    /// The whole.
    pub total: String,
    /// Encoding the `code` layer.
    pub code_encode: String,
    /// Pushing the `code` layer.
    pub code_push: String,
    /// Encoding the `extra` layer.
    pub extra_encode: String,
    /// Pushing the `extra` layer.
    pub extra_push: String,
    /// Hashing the files of the `code` layer.
    pub hash: String,
    /// Selecting the files of the `extra` layer.
    pub select: String,
}

/// The line on what a push cost on the wire.
pub open spec fn wire_line(label: Seq<char>, wire: PushWire) -> Seq<char> {
    "         "@ + label + " wire: sent "@ + size_text(wire.sent.total as nat) + " ("@ + size_text(
        wire.sent.post_flush as nat,
    ) + " pack) \u{b7} received "@ + size_text(wire.received.total as nat) + " ("@ + size_text(
        wire.received.pre_flush as nat,
    ) + " advertising "@ + grouped(wire.received.pre_flush_pkts as int) + " ref(s))"@
}

/// The line on what the walk cost.
pub open spec fn walk_line(walk: SelectStats, took: Seq<char>) -> Seq<char> {
    let line = "         walk "@ + grouped(walk.dirs_entered as int) + " dir(s), "@ + grouped(
        walk.dirs_pruned as int,
    ) + " pruned, "@ + grouped(walk.paths_considered as int) + " path(s) considered in "@ + took;
    if walk.unanchored_patterns > 0 {
        line + "   ("@ + decimal(walk.unanchored_patterns as int)
            + " unanchored pattern(s) \u{2014} no directory could be pruned)"@
    } else {
        line
    }
}

/// What is printed of a sync.
pub open spec fn sync_lines(s: SyncSummary, t: SyncTimes) -> Seq<Seq<char>> {
    seq![
        "Synced stream "@ + s.stream@ + " to "@ + s.remote@ + " in "@ + t.total@,
        "  code:  "@ + decimal(s.code.stats.files_overlaid as int) + " file(s) (+"@ + size_text(
            s.code.stats.bytes_overlaid as nat,
        ) + "), "@ + decimal(s.code.stats.files_removed as int) + " removed   encode "@
            + t.code_encode@ + " \u{b7} push "@ + t.code_push@,
        "  extra: "@ + decimal(s.extra.stats.files as int) + " file(s) ("@ + size_text(
            s.extra.stats.bytes as nat,
        ) + ")   encode "@ + t.extra_encode@ + " \u{b7} push "@ + t.extra_push@,
        wire_line("code"@, s.code.wire),
        wire_line("extra"@, s.extra.wire),
        "         index "@ + grouped(s.code.stats.index_entries as int)
            + " entries \u{b7} status "@ + grouped(s.code.stats.status_items as int)
            + " item(s) \u{b7} hashed "@ + grouped(s.code.stats.files_overlaid as int)
            + " file(s) in "@ + t.hash@,
        walk_line(s.extra.stats.select, t.select@),
    ]
}

fn push_size(out: &mut String, n: u64)
    ensures
        final(out)@ == old(out)@ + size_text(n as nat),
{
    let size = human_bytes(n);
    out.append(size.as_str());
}

fn push_count(out: &mut String, n: u64)
    ensures
        final(out)@ == old(out)@ + grouped(n as int),
{
    let count = human_count(n);
    out.append(count.as_str());
}

fn wire_text(label: &str, wire: &PushWire) -> (r: String)
    ensures
        r@ == wire_line(label@, *wire),
{
    let mut out = "         ".to_owned();
    out.append(label);
    out.append(" wire: sent ");
    push_size(&mut out, wire.sent.total);
    out.append(" (");
    push_size(&mut out, wire.sent.post_flush);
    out.append(" pack) \u{b7} received ");
    push_size(&mut out, wire.received.total);
    out.append(" (");
    push_size(&mut out, wire.received.pre_flush);
    out.append(" advertising ");
    push_count(&mut out, wire.received.pre_flush_pkts);
    out.append(" ref(s))");
    out
}

fn walk_text(walk: &SelectStats, took: &str) -> (r: String)
    ensures
        r@ == walk_line(*walk, took@),
{
    let mut out = "         walk ".to_owned();
    push_count(&mut out, walk.dirs_entered as u64);
    out.append(" dir(s), ");
    push_count(&mut out, walk.dirs_pruned as u64);
    out.append(" pruned, ");
    push_count(&mut out, walk.paths_considered as u64);
    out.append(" path(s) considered in ");
    out.append(took);
    if walk.unanchored_patterns > 0 {
        out.append("   (");
        push_decimal(&mut out, walk.unanchored_patterns as u64);
        out.append(" unanchored pattern(s) \u{2014} no directory could be pruned)");
    }
    out
}

/// What is printed of a sync.
pub fn sync_summary_lines(summary: &SyncSummary, times: &SyncTimes) -> (r: Vec<String>)
    ensures
        texts(r@) == sync_lines(*summary, *times),
{
    let mut out: Vec<String> = Vec::new();
    let mut first = "Synced stream ".to_owned();
    first.append(summary.stream.as_str());
    first.append(" to ");
    first.append(summary.remote.as_str());
    first.append(" in ");
    first.append(times.total.as_str());
    push_text(&mut out, first.as_str());
    let mut code = "  code:  ".to_owned();
    push_decimal(&mut code, summary.code.stats.files_overlaid as u64);
    code.append(" file(s) (+");
    push_size(&mut code, summary.code.stats.bytes_overlaid);
    code.append("), ");
    push_decimal(&mut code, summary.code.stats.files_removed as u64);
    code.append(" removed   encode ");
    code.append(times.code_encode.as_str());
    code.append(" \u{b7} push ");
    code.append(times.code_push.as_str());
    push_text(&mut out, code.as_str());
    let mut extra = "  extra: ".to_owned();
    push_decimal(&mut extra, summary.extra.stats.files as u64);
    extra.append(" file(s) (");
    push_size(&mut extra, summary.extra.stats.bytes);
    extra.append(")   encode ");
    extra.append(times.extra_encode.as_str());
    extra.append(" \u{b7} push ");
    extra.append(times.extra_push.as_str());
    push_text(&mut out, extra.as_str());
    let code_wire = wire_text("code", &summary.code.wire);
    push_text(&mut out, code_wire.as_str());
    let extra_wire = wire_text("extra", &summary.extra.wire);
    push_text(&mut out, extra_wire.as_str());
    let mut index = "         index ".to_owned();
    push_count(&mut index, summary.code.stats.index_entries as u64);
    index.append(" entries \u{b7} status ");
    push_count(&mut index, summary.code.stats.status_items as u64);
    index.append(" item(s) \u{b7} hashed ");
    push_count(&mut index, summary.code.stats.files_overlaid as u64);
    index.append(" file(s) in ");
    index.append(times.hash.as_str());
    push_text(&mut out, index.as_str());
    let walk = walk_text(&summary.extra.stats.select, times.select.as_str());
    push_text(&mut out, walk.as_str());
    proof {
        assert(texts(out@) =~= sync_lines(*summary, *times));
    }
    out
}

/// The line of a stream that was reaped, or would be.
pub open spec fn reaped_line(reaped: ReapedStream, dry_run: bool, now: int) -> Seq<char> {
    let days = signed_decimal(days_since(reaped.committed_unix_secs as int, now));
    if dry_run {
        "would reap `"@ + reaped.stream@ + "` (last synced "@ + days + " day(s) ago, "@ + decimal(
            reaped.refs_removed as int,
        ) + " ref(s))"@
    } else {
        "reaped `"@ + reaped.stream@ + "` (last synced "@ + days + " day(s) ago, "@ + decimal(
            reaped.refs_removed as int,
        ) + " ref(s) removed)"@
    }
}

/// What is printed of a pass over the streams.
pub open spec fn reap_lines_of(outcome: ReapOutcome, older_than_days: u64, now: int) -> Seq<
    Seq<char>,
> {
    let n = outcome.reaped@.len();
    if n == 0 {
        seq![
            "no streams older than "@ + decimal(older_than_days as int)
                + " day(s); nothing to reap ("@ + decimal(outcome.scanned as int) + " scanned)"@,
        ]
    } else {
        Seq::new(n, |i: int| reaped_line(outcome.reaped@[i], outcome.dry_run, now)).push(
            if outcome.dry_run {
                decimal(n as int) + " of "@ + decimal(outcome.scanned as int)
                    + " stream(s) would be reaped (re-run without --dry-run to delete)"@
            } else {
                "reaped "@ + decimal(n as int) + " of "@ + decimal(outcome.scanned as int)
                    + " stream(s)"@
            },
        )
    }
}

fn reaped_text(reaped: &ReapedStream, dry_run: bool, now: i64) -> (r: String)
    requires
        now - reaped.committed_unix_secs <= i64::MAX,
    ensures
        r@ == reaped_line(*reaped, dry_run, now as int),
{
    let days: i64 = age_in_days(reaped.committed_unix_secs, now);
    let mut out = if dry_run {
        "would reap `".to_owned()
    } else {
        "reaped `".to_owned()
    };
    out.append(reaped.stream.as_str());
    out.append("` (last synced ");
    push_signed(&mut out, days);
    out.append(" day(s) ago, ");
    push_decimal(&mut out, reaped.refs_removed as u64);
    if dry_run {
        out.append(" ref(s))");
    } else {
        out.append(" ref(s) removed)");
    }
    out
}

/// What is printed of a pass over the streams: a line for each that is stale, and
/// a summary.
pub fn reap_lines(outcome: &ReapOutcome, older_than_days: u64, now_unix: i64) -> (r: Vec<String>)
    requires
        forall|i: int|
            0 <= i < outcome.reaped@.len() ==> now_unix - (
            #[trigger] outcome.reaped@[i]).committed_unix_secs <= i64::MAX,
    ensures
        texts(r@) == reap_lines_of(*outcome, older_than_days, now_unix as int),
{
    let mut out: Vec<String> = Vec::new();
    if outcome.reaped.len() == 0 {
        let mut line = "no streams older than ".to_owned();
        push_decimal(&mut line, older_than_days);
        line.append(" day(s); nothing to reap (");
        push_decimal(&mut line, outcome.scanned as u64);
        line.append(" scanned)");
        push_text(&mut out, line.as_str());
        proof {
            assert(texts(out@) =~= reap_lines_of(*outcome, older_than_days, now_unix as int));
        }
        return out;
    }
    let ghost lines = Seq::new(
        outcome.reaped@.len(),
        |i: int| reaped_line(outcome.reaped@[i], outcome.dry_run, now_unix as int),
    );
    let mut i: usize = 0;
    proof {
        assert(texts(out@) =~= lines.take(0));
    }
    while i < outcome.reaped.len()
        invariant
            i <= outcome.reaped@.len(),
            forall|k: int|
                0 <= k < outcome.reaped@.len() ==> now_unix - (
                #[trigger] outcome.reaped@[k]).committed_unix_secs <= i64::MAX,
            lines == Seq::new(
                outcome.reaped@.len(),
                |k: int| reaped_line(outcome.reaped@[k], outcome.dry_run, now_unix as int),
            ),
            texts(out@) == lines.take(i as int),
        decreases outcome.reaped@.len() - i,
    {
        let line = reaped_text(&outcome.reaped[i], outcome.dry_run, now_unix);
        push_text(&mut out, line.as_str());
        proof {
            assert(texts(out@) =~= lines.take(i + 1));
        }
        i += 1;
    }
    let mut last = String::new();
    if outcome.dry_run {
        push_decimal(&mut last, outcome.reaped.len() as u64);
        last.append(" of ");
        push_decimal(&mut last, outcome.scanned as u64);
        last.append(" stream(s) would be reaped (re-run without --dry-run to delete)");
        proof {
            assert(last@ =~= decimal(outcome.reaped@.len() as int) + " of "@ + decimal(
                outcome.scanned as int,
            ) + " stream(s) would be reaped (re-run without --dry-run to delete)"@);
        }
    } else {
        last.append("reaped ");
        push_decimal(&mut last, outcome.reaped.len() as u64);
        last.append(" of ");
        push_decimal(&mut last, outcome.scanned as u64);
        last.append(" stream(s)");
        proof {
            assert(last@ =~= "reaped "@ + decimal(outcome.reaped@.len() as int) + " of "@ + decimal(
                outcome.scanned as int,
            ) + " stream(s)"@);
        }
    }
    push_text(&mut out, last.as_str());
    proof {
        assert(lines.take(lines.len() as int) =~= lines);
        assert(texts(out@) =~= reap_lines_of(*outcome, older_than_days, now_unix as int));
    }
    out
}

/// Whether `r` is the time before which a stream is stale, or `None` where no time
/// is that early.
pub open spec fn is_cutoff(now_unix: i64, older_than_days: u64, r: Option<i64>) -> bool {
    match r {
        Some(cutoff) => cutoff == now_unix - older_than_days * SECONDS_PER_DAY,
        None => now_unix - older_than_days * SECONDS_PER_DAY < i64::MIN,
    }
}

/// The time before which a stream is stale, in seconds of the Unix epoch.
pub fn reap_cutoff(now_unix: i64, older_than_days: u64) -> (r: Option<i64>)
    ensures
        is_cutoff(now_unix, older_than_days, r),
{
    let cutoff: i128 = now_unix as i128 - (older_than_days as i128) * 86_400;
    if cutoff < i64::MIN as i128 {
        None
    } else {
        Some(cutoff as i64)
    }
}

/// What is printed where a stream was forgotten.
pub fn forget_line(stream: &str, removed: usize) -> (r: String)
    ensures
        r@ == if removed == 0 {
            "no refs for stream `"@ + stream@ + "`; nothing to forget"@
        } else {
            "forgot stream `"@ + stream@ + "` ("@ + decimal(removed as int) + " ref(s) removed)"@
        },
{
    if removed == 0 {
        let mut out = "no refs for stream `".to_owned();
        out.append(stream);
        out.append("`; nothing to forget");
        out
    } else {
        let mut out = "forgot stream `".to_owned();
        out.append(stream);
        out.append("` (");
        push_decimal(&mut out, removed as u64);
        out.append(" ref(s) removed)");
        out
    }
}

/// The size of an advertisement that a note is due on.
pub const NOTABLE: u64 = 262_144;

/// What is printed of a probe.
pub open spec fn probe_lines_of(report: ProbeReport, total: Seq<char>) -> Seq<Seq<char>> {
    let lines = seq![
        report.remote@ + " is up ("@ + total + ")"@,
        "  ref advertisement: "@ + size_text(report.advertisement_bytes as nat) + " for "@
            + grouped(report.refs_advertised as int) + " ref(s) ("@ + grouped(
            report.refs_ours as int,
        ) + " git-full-send's), on every connection"@,
    ];
    if report.advertisement_bytes >= NOTABLE {
        lines.push(
            "  note: that is paid per connection, and a sync makes two. Run `git-full-send doctor --repo <server-repo>` for what to do about it."@,
        )
    } else {
        lines
    }
}

/// What is printed of a probe.
pub fn probe_lines(report: &ProbeReport, total: &str) -> (r: Vec<String>)
    ensures
        texts(r@) == probe_lines_of(*report, total@),
{
    let mut out: Vec<String> = Vec::new();
    let mut first = report.remote.as_str().to_owned();
    first.append(" is up (");
    first.append(total);
    first.append(")");
    push_text(&mut out, first.as_str());
    let mut second = "  ref advertisement: ".to_owned();
    push_size(&mut second, report.advertisement_bytes);
    second.append(" for ");
    push_count(&mut second, report.refs_advertised);
    second.append(" ref(s) (");
    push_count(&mut second, report.refs_ours);
    second.append(" git-full-send's), on every connection");
    push_text(&mut out, second.as_str());
    if report.advertisement_bytes >= NOTABLE {
        push_text(
            &mut out,
            "  note: that is paid per connection, and a sync makes two. Run `git-full-send doctor --repo <server-repo>` for what to do about it.",
        );
    }
    proof {
        assert(texts(out@) =~= probe_lines_of(*report, total@));
    }
    out
}

/// How long the phases of a checkout took, as it is shown.
#[derive(Debug)]
pub struct UpdateTimes {
    /// The whole.
    pub total: String,
    /// Naming the trees.
    pub resolve: String,
    /// Measuring.
    pub measure: String,
    /// Resetting the worktree.
    pub read_tree: String,
    /// Sweeping.
    pub clean: String,
    /// Loading the index, if git said.
    pub load_index: Option<String>,
    /// Walking through the tree, if git said.
    pub resolve_tree: Option<String>,
    /// Writing files, if git said.
    pub apply: Option<String>,
    /// Writing the index, if git said.
    pub write_index: Option<String>,
}

/// What had to change.
pub open spec fn work_text(changed: ChangedPaths) -> Seq<char> {
    let work = match changed.vs_index {
        Some(delta) => if delta.to_write == 0 && delta.to_remove == 0 {
            "nothing to write or remove"@
        } else {
            grouped(delta.to_write as int) + " to write, "@ + grouped(delta.to_remove as int)
                + " to remove"@
        },
        None => "changed paths not measured"@,
    };
    let same = if changed.tree_unchanged {
        work + " (same tree as the last checkout)"@
    } else {
        work
    };
    match changed.vs_worktree {
        Some(delta) => same + "; vs. disk "@ + grouped(delta.to_write as int) + " to write, "@
            + grouped(delta.to_remove as int) + " to remove"@,
        None => same,
    }
}

/// What the index looked like.
pub open spec fn index_line(index: IndexState, files: Option<usize>) -> Seq<char> {
    let line = "  index "@ + index.state@ + ": "@ + match index.entries {
        Some(n) => grouped(
            if n < 0 {
                0
            } else {
                n as int
            },
        ) + " entries"@,
        None => "entry count unknown"@,
    } + ", "@ + match index.bytes {
        Some(n) => size_text(n as nat),
        None => "absent"@,
    };
    match files {
        Some(n) => line + "   worktree "@ + grouped(n as int) + " file(s)"@,
        None => line,
    }
}

/// A phase and how long it took, where that is known.
pub open spec fn phase(label: Seq<char>, took: Option<String>) -> Seq<Seq<char>> {
    match took {
        Some(t) => seq![label + " "@ + t@],
        None => Seq::empty(),
    }
}

/// The phases of the step that resets the worktree, as far as they are known.
pub open spec fn phases(t: UpdateTimes) -> Seq<Seq<char>> {
    phase("load index"@, t.load_index) + phase("resolve tree"@, t.resolve_tree) + phase(
        "apply"@,
        t.apply,
    ) + phase("write index"@, t.write_index)
}

/// What is printed of a checkout whose tree is shown as `tree`.
pub open spec fn update_lines_of(
    report: UpdateWorktreeReport,
    t: UpdateTimes,
    tree: Seq<char>,
) -> Seq<Seq<char>> {
    let lines = seq![
        "Updated worktree "@ + report.worktree@ + " from stream "@ + report.stream@ + " in "@
            + t.total@,
        "  tree "@ + tree + " \u{2014} "@ + work_text(report.changed),
        index_line(report.index, report.worktree_files),
        "  resolve "@ + t.resolve@ + " \u{b7} measure "@ + t.measure@ + " \u{b7} read-tree "@
            + t.read_tree@ + " \u{b7} clean "@ + t.clean@ + " ("@ + decimal(
            report.clean.removed as int,
        ) + " removed)"@,
    ];
    if phases(t).len() > 0 {
        lines.push("    read-tree: "@ + separated(phases(t), " \u{b7} "@))
    } else {
        lines
    }
}

fn push_delta(out: &mut String, delta: &PathDelta)
    ensures
        final(out)@ == old(out)@ + (grouped(delta.to_write as int) + " to write, "@ + grouped(
            delta.to_remove as int,
        ) + " to remove"@),
{
    let ghost before = out@;
    push_count(out, delta.to_write as u64);
    out.append(" to write, ");
    push_count(out, delta.to_remove as u64);
    out.append(" to remove");
    proof {
        assert(out@ =~= before + (grouped(delta.to_write as int) + " to write, "@ + grouped(
            delta.to_remove as int,
        ) + " to remove"@));
    }
}

fn work_done(changed: &ChangedPaths) -> (r: String)
    ensures
        r@ == work_text(*changed),
{
    let mut out = String::new();
    match &changed.vs_index {
        Some(delta) => {
            if delta.is_empty() {
                out.append("nothing to write or remove");
                proof {
                    assert(out@ =~= "nothing to write or remove"@);
                }
            } else {
                push_delta(&mut out, delta);
                proof {
                    assert(out@ =~= grouped(delta.to_write as int) + " to write, "@ + grouped(
                        delta.to_remove as int,
                    ) + " to remove"@);
                }
            }
        },
        None => {
            out.append("changed paths not measured");
            proof {
                assert(out@ =~= "changed paths not measured"@);
            }
        },
    }
    if changed.tree_unchanged {
        out.append(" (same tree as the last checkout)");
    }
    match &changed.vs_worktree {
        Some(delta) => {
            let ghost before = out@;
            out.append("; vs. disk ");
            push_delta(&mut out, delta);
            proof {
                assert(out@ =~= before + "; vs. disk "@ + grouped(delta.to_write as int)
                    + " to write, "@ + grouped(delta.to_remove as int) + " to remove"@);
            }
        },
        None => {},
    }
    out
}

fn index_text(index: &IndexState, files: Option<usize>) -> (r: String)
    ensures
        r@ == index_line(*index, files),
{
    let mut out = "  index ".to_owned();
    out.append(index.state);
    out.append(": ");
    let ghost front = out@;
    match index.entries {
        Some(n) => {
            let shown: u64 = if n < 0 {
                0
            } else {
                n as u64
            };
            push_count(&mut out, shown);
            out.append(" entries");
            proof {
                assert(out@ =~= front + (grouped(shown as int) + " entries"@));
            }
        },
        None => {
            out.append("entry count unknown");
        },
    }
    out.append(", ");
    match index.bytes {
        Some(n) => {
            push_size(&mut out, n);
        },
        None => {
            out.append("absent");
        },
    }
    match files {
        Some(n) => {
            out.append("   worktree ");
            push_count(&mut out, n as u64);
            out.append(" file(s)");
        },
        None => {},
    }
    out
}

fn add_phase(out: &mut Vec<String>, label: &str, took: &Option<String>)
    ensures
        texts(final(out)@) == texts(old(out)@) + phase(label@, *took),
{
    let ghost before = texts(out@);
    match took {
        Some(t) => {
            let mut text = label.to_owned();
            text.append(" ");
            text.append(t.as_str());
            push_text(out, text.as_str());
        },
        None => {},
    }
    proof {
        assert(texts(out@) =~= before + phase(label@, *took));
    }
}

fn phase_list(t: &UpdateTimes) -> (r: Vec<String>)
    ensures
        texts(r@) == phases(*t),
{
    let mut out: Vec<String> = Vec::new();
    proof {
        assert(texts(out@) =~= Seq::<Seq<char>>::empty());
    }
    add_phase(&mut out, "load index", &t.load_index);
    add_phase(&mut out, "resolve tree", &t.resolve_tree);
    add_phase(&mut out, "apply", &t.apply);
    add_phase(&mut out, "write index", &t.write_index);
    proof {
        assert(texts(out@) =~= phases(*t));
    }
    out
}

/// What is printed of a checkout: how much had to change, what the index looked
/// like, and where the time went.
pub fn update_lines(report: &UpdateWorktreeReport, times: &UpdateTimes) -> (r: Vec<String>)
    requires
        exists|n: int| #[trigger] is_short(report.tree@, n),
    ensures
        exists|n: int| #[trigger]
            is_short(report.tree@, n) && texts(r@) == update_lines_of(
                *report,
                *times,
                report.tree@.take(n),
            ),
{
    let mut out: Vec<String> = Vec::new();
    let mut first = "Updated worktree ".to_owned();
    first.append(report.worktree.as_str());
    first.append(" from stream ");
    first.append(report.stream.as_str());
    first.append(" in ");
    first.append(times.total.as_str());
    push_text(&mut out, first.as_str());
    let tree = short_oid(report.tree.as_str());
    let work = work_done(&report.changed);
    let mut second = "  tree ".to_owned();
    second.append(tree.as_str());
    second.append(" \u{2014} ");
    second.append(work.as_str());
    push_text(&mut out, second.as_str());
    let index = index_text(&report.index, report.worktree_files);
    push_text(&mut out, index.as_str());
    let mut fourth = "  resolve ".to_owned();
    fourth.append(times.resolve.as_str());
    fourth.append(" \u{b7} measure ");
    fourth.append(times.measure.as_str());
    fourth.append(" \u{b7} read-tree ");
    fourth.append(times.read_tree.as_str());
    fourth.append(" \u{b7} clean ");
    fourth.append(times.clean.as_str());
    fourth.append(" (");
    push_decimal(&mut fourth, report.clean.removed as u64);
    fourth.append(" removed)");
    push_text(&mut out, fourth.as_str());
    let parts = phase_list(times);
    proof {
        assert(texts(parts@).len() == parts@.len());
    }
    if parts.len() > 0 {
        let joined = join_texts(&parts, " \u{b7} ");
        let mut fifth = "    read-tree: ".to_owned();
        fifth.append(joined.as_str());
        push_text(&mut out, fifth.as_str());
    }
    proof {
        assert(texts(out@) =~= update_lines_of(*report, *times, tree@));
    }
    out
}

/// How many columns a paragraph under a finding has.
pub const REMEDY_WIDTH: usize = 68;

/// How a verdict is shown.
pub open spec fn mark_of(status: Seq<char>) -> Seq<char> {
    if status == ERROR@ {
        "ERROR"@
    } else if status == WARN@ {
        " WARN"@
    } else {
        "   ok"@
    }
}

/// Lines with blanks before them.
pub open spec fn indented(lines: Seq<Seq<char>>) -> Seq<Seq<char>> {
    Seq::new(lines.len(), |i: int| "       "@ + lines[i])
}

/// What is printed of a finding.
pub open spec fn check_lines(check: CheckView) -> Seq<Seq<char>> {
    seq![mark_of(check.status) + "  "@ + padded_right(check.name, 16) + " "@ + check.summary]
        + match check.remedy {
        Some(text) => indented(wrapped(Seq::empty(), words_of(text), REMEDY_WIDTH as nat)),
        None => Seq::empty(),
    }
}

/// What is printed of findings.
pub open spec fn all_check_lines(checks: Seq<Check>) -> Seq<Seq<char>>
    decreases checks.len(),
{
    if checks.len() == 0 {
        Seq::empty()
    } else {
        all_check_lines(checks.drop_last()) + check_lines(checks.last()@)
    }
}

/// What is printed first of a report.
pub open spec fn doctor_head(report: DoctorReport) -> Seq<Seq<char>> {
    seq!["Checked "@ + report.repo@] + match report.worktree {
        Some(path) => seq!["  worktree "@ + path@],
        None => Seq::empty(),
    } + seq![""@]
}

/// What is printed last of a report.
pub open spec fn doctor_tail(report: DoctorReport) -> Seq<Seq<char>> {
    let errors = count_status(report.checks@, ERROR@);
    let warnings = count_status(report.checks@, WARN@);
    seq![
        ""@,
        if errors == 0 && warnings == 0 {
            "Nothing to report."@
        } else {
            decimal(errors as int) + " error(s), "@ + decimal(warnings as int) + " warning(s)."@
        },
    ]
}

fn add_check(out: &mut Vec<String>, check: &Check)
    ensures
        texts(final(out)@) == texts(old(out)@) + check_lines(check@),
{
    let ghost before = texts(out@);
    let mut line = if check.has_status(ERROR) {
        "ERROR".to_owned()
    } else if check.has_status(WARN) {
        " WARN".to_owned()
    } else {
        "   ok".to_owned()
    };
    line.append("  ");
    push_padded_right(&mut line, check.name.as_str(), 16);
    line.append(" ");
    line.append(check.summary.as_str());
    push_text(out, line.as_str());
    let ghost head = texts(out@);
    match &check.remedy {
        Some(text) => {
            let paragraph = wrap(text.as_str(), REMEDY_WIDTH);
            let ghost shown = indented(texts(paragraph@));
            let mut i: usize = 0;
            proof {
                assert(head + shown.take(0) =~= head);
            }
            while i < paragraph.len()
                invariant
                    i <= paragraph@.len(),
                    shown == indented(texts(paragraph@)),
                    texts(out@) == head + shown.take(i as int),
                decreases paragraph@.len() - i,
            {
                let mut row = "       ".to_owned();
                row.append(paragraph[i].as_str());
                push_text(out, row.as_str());
                proof {
                    assert(texts(out@) =~= head + shown.take(i + 1));
                }
                i += 1;
            }
            proof {
                assert(shown.take(shown.len() as int) =~= shown);
                assert(texts(out@) =~= before + check_lines(check@));
            }
        },
        None => {
            proof {
                assert(texts(out@) =~= before + check_lines(check@));
            }
        },
    }
}

/// What is printed of a report: each finding leads with its verdict and is
/// followed by what to do about it.
pub fn doctor_lines(report: &DoctorReport) -> (r: Vec<String>)
    ensures
        texts(r@) == doctor_head(*report) + all_check_lines(report.checks@) + doctor_tail(*report),
{
    let mut out: Vec<String> = Vec::new();
    let mut first = "Checked ".to_owned();
    first.append(report.repo.as_str());
    push_text(&mut out, first.as_str());
    match &report.worktree {
        Some(path) => {
            let mut second = "  worktree ".to_owned();
            second.append(path.as_str());
            push_text(&mut out, second.as_str());
        },
        None => {},
    }
    push_text(&mut out, "");
    let ghost head = texts(out@);
    let ghost all = report.checks@;
    let mut i: usize = 0;
    proof {
        assert(head =~= doctor_head(*report));
        assert(all.take(0) =~= Seq::<Check>::empty());
        assert(head + all_check_lines(all.take(0)) =~= head);
    }
    while i < report.checks.len()
        invariant
            i <= report.checks@.len(),
            all == report.checks@,
            texts(out@) == head + all_check_lines(all.take(i as int)),
        decreases report.checks@.len() - i,
    {
        add_check(&mut out, &report.checks[i]);
        proof {
            let next = all.take(i + 1);
            assert(next.drop_last() =~= all.take(i as int));
            assert(next.last() == all[i as int]);
            assert(texts(out@) =~= head + all_check_lines(next));
        }
        i += 1;
    }
    proof {
        assert(all.take(all.len() as int) =~= all);
    }
    let ghost body = texts(out@);
    push_text(&mut out, "");
    let errors: usize = report.errors();
    let warnings: usize = report.warnings();
    if errors == 0 && warnings == 0 {
        push_text(&mut out, "Nothing to report.");
    } else {
        let mut last = String::new();
        push_decimal(&mut last, errors as u64);
        last.append(" error(s), ");
        push_decimal(&mut last, warnings as u64);
        last.append(" warning(s).");
        proof {
            assert(last@ =~= decimal(errors as int) + " error(s), "@ + decimal(warnings as int)
                + " warning(s)."@);
        }
        push_text(&mut out, last.as_str());
    }
    proof {
        assert(texts(out@) =~= body + doctor_tail(*report));
    }
    out
}

/// A row of a table of metrics, as it is shown.
#[derive(Debug)]
pub struct MetricsRow {
    /// The field.
    pub field: String,
    /// Its median.
    pub p50: String,
    /// Its 95th percentile.
    pub p95: String,
    /// Its greatest value.
    pub max: String,
}

/// The table of the metrics of one kind, as it is shown.
#[derive(Debug)]
pub struct MetricsTable {
    /// The kind.
    pub kind: String,
    /// How many records there are.
    pub records: usize,
    /// The rows.
    pub rows: Vec<MetricsRow>,
}

/// A line of four columns.
pub open spec fn columns(a: Seq<char>, b: Seq<char>, c: Seq<char>, d: Seq<char>) -> Seq<char> {
    "  "@ + padded_right(a, 34) + " "@ + padded_left(b, 10) + " "@ + padded_left(c, 10) + " "@
        + padded_left(d, 10)
}

/// The lines of rows.
pub open spec fn row_lines(rows: Seq<MetricsRow>) -> Seq<Seq<char>> {
    Seq::new(rows.len(), |i: int| columns(rows[i].field@, rows[i].p50@, rows[i].p95@, rows[i].max@))
}

/// The lines of a table.
pub open spec fn table_lines(table: MetricsTable) -> Seq<Seq<char>> {
    seq![
        table.kind@ + " ("@ + decimal(table.records as int) + " record(s))"@,
        columns("field"@, "p50"@, "p95"@, "max"@),
    ] + row_lines(table.rows@) + seq![""@]
}

/// The lines of tables.
pub open spec fn tables_lines(tables: Seq<MetricsTable>) -> Seq<Seq<char>>
    decreases tables.len(),
{
    if tables.len() == 0 {
        Seq::empty()
    } else {
        tables_lines(tables.drop_last()) + table_lines(tables.last())
    }
}

fn add_columns(out: &mut Vec<String>, a: &str, b: &str, c: &str, d: &str)
    ensures
        texts(final(out)@) == texts(old(out)@).push(columns(a@, b@, c@, d@)),
{
    let mut line = "  ".to_owned();
    push_padded_right(&mut line, a, 34);
    line.append(" ");
    push_padded_left(&mut line, b, 10);
    line.append(" ");
    push_padded_left(&mut line, c, 10);
    line.append(" ");
    push_padded_left(&mut line, d, 10);
    push_text(out, line.as_str());
}

fn add_table(out: &mut Vec<String>, table: &MetricsTable)
    ensures
        texts(final(out)@) == texts(old(out)@) + table_lines(*table),
{
    let ghost before = texts(out@);
    let mut first = table.kind.as_str().to_owned();
    first.append(" (");
    push_decimal(&mut first, table.records as u64);
    first.append(" record(s))");
    push_text(out, first.as_str());
    add_columns(out, "field", "p50", "p95", "max");
    let ghost head = texts(out@);
    let ghost rows = row_lines(table.rows@);
    let mut i: usize = 0;
    proof {
        assert(head + rows.take(0) =~= head);
    }
    while i < table.rows.len()
        invariant
            i <= table.rows@.len(),
            rows == row_lines(table.rows@),
            texts(out@) == head + rows.take(i as int),
        decreases table.rows@.len() - i,
    {
        let row = &table.rows[i];
        add_columns(out, row.field.as_str(), row.p50.as_str(), row.p95.as_str(), row.max.as_str());
        proof {
            assert(texts(out@) =~= head + rows.take(i + 1));
        }
        i += 1;
    }
    push_text(out, "");
    proof {
        assert(rows.take(rows.len() as int) =~= rows);
        assert(texts(out@) =~= before + table_lines(*table));
    }
}

/// What is printed of the metrics.
pub fn metrics_lines(tables: &Vec<MetricsTable>) -> (r: Vec<String>)
    ensures
        texts(r@) == if tables@.len() == 0 {
            seq!["no metrics recorded yet"@]
        } else {
            tables_lines(tables@)
        },
{
    let mut out: Vec<String> = Vec::new();
    if tables.len() == 0 {
        push_text(&mut out, "no metrics recorded yet");
        proof {
            assert(texts(out@) =~= seq!["no metrics recorded yet"@]);
        }
        return out;
    }
    let mut i: usize = 0;
    proof {
        assert(tables@.take(0) =~= Seq::<MetricsTable>::empty());
        assert(texts(out@) =~= Seq::<Seq<char>>::empty());
    }
    while i < tables.len()
        invariant
            i <= tables@.len(),
            texts(out@) == tables_lines(tables@.take(i as int)),
        decreases tables@.len() - i,
    {
        add_table(&mut out, &tables[i]);
        proof {
            let next = tables@.take(i + 1);
            assert(next.drop_last() =~= tables@.take(i as int));
            assert(next.last() == tables@[i as int]);
        }
        i += 1;
    }
    proof {
        assert(tables@.take(tables@.len() as int) =~= tables@);
    }
    out
}

proof fn lemma_has_part(whole: Seq<char>, before: Seq<char>, part: Seq<char>, after: Seq<char>)
    requires
        whole =~= before + part + after,
    ensures
        has_part(whole, part),
{
    assert(whole.subrange(before.len() as int, (before.len() + part.len()) as int) =~= part);
    assert(part_at(whole, part, before.len() as int));
}

proof fn lemma_ends(whole: Seq<char>, head: Seq<char>, middle: Seq<char>, tail: Seq<char>)
    requires
        whole =~= head + middle + tail,
    ensures
        head.is_prefix_of(whole),
        tail.is_suffix_of(whole),
{
    assert(whole.subrange(0, head.len() as int) =~= head);
    assert(whole.subrange(whole.len() - tail.len(), whole.len() as int) =~= tail);
}

/// What is said of a push is what it sent, with the pack, and what it received,
/// with the advertisement and the refs in it.
pub proof fn law_a_wire_line_says_what_was_sent_and_received(label: Seq<char>, wire: PushWire)
    ensures
        ("         "@ + label + " wire: sent "@ + size_text(wire.sent.total as nat) + " ("@
            + size_text(wire.sent.post_flush as nat) + " pack)"@).is_prefix_of(
            wire_line(label, wire),
        ),
        (size_text(wire.received.total as nat) + " ("@ + size_text(wire.received.pre_flush as nat)
            + " advertising "@ + grouped(wire.received.pre_flush_pkts as int)
            + " ref(s))"@).is_suffix_of(wire_line(label, wire)),
{
    let sent = "         "@ + label + " wire: sent "@ + size_text(wire.sent.total as nat) + " ("@
        + size_text(wire.sent.post_flush as nat);
    let back = size_text(wire.received.total as nat) + " ("@ + size_text(
        wire.received.pre_flush as nat,
    ) + " advertising "@ + grouped(wire.received.pre_flush_pkts as int) + " ref(s))"@;
    assert(wire_line(label, wire) =~= sent + " pack) \u{b7} received "@ + back);
    reveal_strlit(" pack)");
    reveal_strlit(" pack) \u{b7} received ");
    reveal_strlit(" \u{b7} received ");
    assert(" pack) \u{b7} received "@ =~= " pack)"@ + " \u{b7} received "@);
    lemma_ends(wire_line(label, wire), sent + " pack)"@, " \u{b7} received "@, back);
}

/// What is said of a sync names its stream, its server and how long it took, and
/// says of each layer how many files it has, how large they are, how long it took
/// to encode and to push, and what that cost on the wire.
pub proof fn law_a_sync_is_told_layer_by_layer(s: SyncSummary, t: SyncTimes)
    ensures
        sync_lines(s, t).len() == 7,
        sync_lines(s, t)[0] == "Synced stream "@ + s.stream@ + " to "@ + s.remote@ + " in "@
            + t.total@,
        ("  code:  "@ + decimal(s.code.stats.files_overlaid as int) + " file(s) (+"@ + size_text(
            s.code.stats.bytes_overlaid as nat,
        ) + "), "@ + decimal(s.code.stats.files_removed as int)).is_prefix_of(
            sync_lines(s, t)[1],
        ),
        (t.code_encode@ + " \u{b7} push "@ + t.code_push@).is_suffix_of(sync_lines(s, t)[1]),
        ("  extra: "@ + decimal(s.extra.stats.files as int) + " file(s) ("@ + size_text(
            s.extra.stats.bytes as nat,
        )).is_prefix_of(sync_lines(s, t)[2]),
        (t.extra_encode@ + " \u{b7} push "@ + t.extra_push@).is_suffix_of(sync_lines(s, t)[2]),
        sync_lines(s, t)[3] == wire_line("code"@, s.code.wire),
        sync_lines(s, t)[4] == wire_line("extra"@, s.extra.wire),
        ("         index "@ + grouped(s.code.stats.index_entries as int)
            + " entries \u{b7} status "@ + grouped(s.code.stats.status_items as int)).is_prefix_of(
            sync_lines(s, t)[5],
        ),
        (grouped(s.code.stats.files_overlaid as int) + " file(s) in "@ + t.hash@).is_suffix_of(
            sync_lines(s, t)[5],
        ),
        sync_lines(s, t)[6] == walk_line(s.extra.stats.select, t.select@),
{
    let code = "  code:  "@ + decimal(s.code.stats.files_overlaid as int) + " file(s) (+"@
        + size_text(s.code.stats.bytes_overlaid as nat) + "), "@ + decimal(
        s.code.stats.files_removed as int,
    );
    lemma_ends(
        sync_lines(s, t)[1],
        code,
        " removed   encode "@,
        t.code_encode@ + " \u{b7} push "@ + t.code_push@,
    );
    let extra = "  extra: "@ + decimal(s.extra.stats.files as int) + " file(s) ("@ + size_text(
        s.extra.stats.bytes as nat,
    );
    lemma_ends(
        sync_lines(s, t)[2],
        extra,
        ")   encode "@,
        t.extra_encode@ + " \u{b7} push "@ + t.extra_push@,
    );
    let index = "         index "@ + grouped(s.code.stats.index_entries as int)
        + " entries \u{b7} status "@ + grouped(s.code.stats.status_items as int);
    lemma_ends(
        sync_lines(s, t)[5],
        index,
        " item(s) \u{b7} hashed "@,
        grouped(s.code.stats.files_overlaid as int) + " file(s) in "@ + t.hash@,
    );
}

/// What is said of the walk is how many directories were entered and skipped, and
/// how many paths were considered; that no directory could be skipped is said
/// exactly where some pattern is unanchored.
pub proof fn law_a_walk_line_says_why_nothing_was_skipped(walk: SelectStats, took: Seq<char>)
    ensures
        ({
            let line = "         walk "@ + grouped(walk.dirs_entered as int) + " dir(s), "@
                + grouped(walk.dirs_pruned as int) + " pruned, "@ + grouped(
                walk.paths_considered as int,
            ) + " path(s) considered in "@ + took;
            &&& line.is_prefix_of(walk_line(walk, took))
            &&& walk_line(walk, took).len() > line.len() <==> walk.unanchored_patterns > 0
            &&& walk.unanchored_patterns > 0 ==> ("   ("@ + decimal(
                walk.unanchored_patterns as int,
            ) + " unanchored pattern(s)"@).is_prefix_of(
                walk_line(walk, took).skip(line.len() as int),
            )
        }),
{
    let line = "         walk "@ + grouped(walk.dirs_entered as int) + " dir(s), "@ + grouped(
        walk.dirs_pruned as int,
    ) + " pruned, "@ + grouped(walk.paths_considered as int) + " path(s) considered in "@ + took;
    let whole = walk_line(walk, took);
    assert(whole.subrange(0, line.len() as int) =~= line);
    if walk.unanchored_patterns > 0 {
        reveal_strlit("   (");
        reveal_strlit(" unanchored pattern(s)");
        reveal_strlit(" unanchored pattern(s) \u{2014} no directory could be pruned)");
        reveal_strlit(" \u{2014} no directory could be pruned)");
        let more = "   ("@ + decimal(walk.unanchored_patterns as int) + " unanchored pattern(s)"@;
        let rest = whole.skip(line.len() as int);
        assert(" unanchored pattern(s)"@ + " \u{2014} no directory could be pruned)"@
            =~= " unanchored pattern(s) \u{2014} no directory could be pruned)"@);
        assert(rest =~= more + " \u{2014} no directory could be pruned)"@);
        assert(rest.subrange(0, more.len() as int) =~= more);
    }
}

/// A reaped stream has a line of its own and the last line counts them; a dry run
/// says of each, and of all, that it would be reaped. Where nothing is stale one
/// line says so.
pub proof fn law_reaping_is_told_stream_by_stream(
    outcome: ReapOutcome,
    older_than_days: u64,
    now: int,
    i: int,
)
    requires
        outcome.reaped@.len() > 0,
        0 <= i < outcome.reaped@.len(),
    ensures
        ({
            let lines = reap_lines_of(outcome, older_than_days, now);
            let n = outcome.reaped@.len();
            let one = outcome.reaped@[i];
            &&& lines.len() == n + 1
            &&& outcome.dry_run ==> ("would reap `"@ + one.stream@ + "` (last synced "@
                + signed_decimal(days_since(one.committed_unix_secs as int, now))
                + " day(s) ago, "@ + decimal(one.refs_removed as int)
                + " ref(s))"@) == lines[i] && (decimal(n as int) + " of "@ + decimal(
                outcome.scanned as int,
            ) + " stream(s) would be reaped"@).is_prefix_of(lines[n as int])
            &&& !outcome.dry_run ==> ("reaped `"@ + one.stream@ + "` (last synced "@
                + signed_decimal(days_since(one.committed_unix_secs as int, now))
                + " day(s) ago, "@ + decimal(one.refs_removed as int)
                + " ref(s) removed)"@) == lines[i] && lines[n as int] == "reaped "@ + decimal(
                n as int,
            ) + " of "@ + decimal(outcome.scanned as int) + " stream(s)"@
        }),
{
    let lines = reap_lines_of(outcome, older_than_days, now);
    let n = outcome.reaped@.len();
    if outcome.dry_run {
        reveal_strlit(" stream(s) would be reaped");
        reveal_strlit(" stream(s) would be reaped (re-run without --dry-run to delete)");
        let head = decimal(n as int) + " of "@ + decimal(outcome.scanned as int)
            + " stream(s) would be reaped"@;
        assert(lines[n as int].subrange(0, head.len() as int) =~= head);
    }
}

/// A probe that finds an advertisement of a quarter of a mebibyte or more says
/// what to do about it, and one that finds a smaller one does not.
pub proof fn law_a_large_advertisement_is_noted(report: ProbeReport, total: Seq<char>)
    ensures
        probe_lines_of(report, total).len() == if report.advertisement_bytes >= 256 * 1024 {
            3nat
        } else {
            2nat
        },
        probe_lines_of(report, total)[0] == report.remote@ + " is up ("@ + total + ")"@,
        ("  ref advertisement: "@ + size_text(report.advertisement_bytes as nat) + " for "@
            + grouped(report.refs_advertised as int) + " ref(s) ("@ + grouped(
            report.refs_ours as int,
        ) + " git-full-send's)"@).is_prefix_of(probe_lines_of(report, total)[1]),
{
    reveal_strlit(" git-full-send's)");
    reveal_strlit(" git-full-send's), on every connection");
    let head = "  ref advertisement: "@ + size_text(report.advertisement_bytes as nat) + " for "@
        + grouped(report.refs_advertised as int) + " ref(s) ("@ + grouped(report.refs_ours as int)
        + " git-full-send's)"@;
    let line = probe_lines_of(report, total)[1];
    assert(line.subrange(0, head.len() as int) =~= head);
}

/// What is said of a checkout's work is what had to be written and removed by the
/// index, whether the tree was there already, and what differed from the disk,
/// each where it is known.
pub proof fn law_work_is_told_as_it_was_measured(changed: ChangedPaths)
    ensures
        changed.vs_index is None ==> "changed paths not measured"@.is_prefix_of(
            work_text(changed),
        ),
        changed.vs_index matches Some(delta) ==> {
            &&& delta.to_write + delta.to_remove > 0 ==> (grouped(delta.to_write as int)
                + " to write, "@ + grouped(delta.to_remove as int)
                + " to remove"@).is_prefix_of(work_text(changed))
            &&& delta.to_write + delta.to_remove == 0
                ==> "nothing to write or remove"@.is_prefix_of(work_text(changed))
        },
        changed.tree_unchanged ==> has_part(
            work_text(changed),
            " (same tree as the last checkout)"@,
        ),
        changed.vs_worktree matches Some(delta) ==> ("; vs. disk "@ + grouped(
            delta.to_write as int,
        ) + " to write, "@ + grouped(delta.to_remove as int) + " to remove"@).is_suffix_of(
            work_text(changed),
        ),
        work_text(ChangedPaths { tree_unchanged: false, vs_worktree: None, ..changed }).len()
            <= work_text(changed).len(),
{
    let bare = ChangedPaths { tree_unchanged: false, vs_worktree: None, ..changed };
    let whole = work_text(changed);
    let head = work_text(bare);
    assert(whole.subrange(0, head.len() as int) =~= head);
    let mark = " (same tree as the last checkout)"@;
    let tail = match changed.vs_worktree {
        Some(delta) => "; vs. disk "@ + grouped(delta.to_write as int) + " to write, "@ + grouped(
            delta.to_remove as int,
        ) + " to remove"@,
        None => Seq::empty(),
    };
    if changed.tree_unchanged {
        lemma_has_part(whole, head, mark, tail);
    }
    if changed.vs_worktree is Some {
        assert(whole.subrange(whole.len() - tail.len(), whole.len() as int) =~= tail);
    }
}

/// A line says of an index whether it was warm, how many entries it has and how
/// large its file was, and of the worktree how many files it has, where that was
/// counted.
pub proof fn law_an_index_is_told_as_it_was_found(index: IndexState, files: Option<usize>)
    ensures
        ("  index "@ + index.state@ + ": "@).is_prefix_of(index_line(index, files)),
        index.entries matches Some(n) ==> n >= 0 ==> has_part(
            index_line(index, files),
            ": "@ + grouped(n as int) + " entries, "@,
        ),
        index.entries is None ==> has_part(
            index_line(index, files),
            ": "@ + "entry count unknown"@ + ", "@,
        ),
        index.bytes matches Some(n) ==> has_part(
            index_line(index, files),
            ", "@ + size_text(n as nat),
        ),
        index.bytes is None ==> has_part(index_line(index, files), ", "@ + "absent"@),
        files matches Some(n) ==> ("   worktree "@ + grouped(n as int)
            + " file(s)"@).is_suffix_of(index_line(index, files)),
{
    reveal_strlit(" entries");
    reveal_strlit(" entries, ");
    reveal_strlit(", ");
    let whole = index_line(index, files);
    let head = "  index "@ + index.state@;
    let entries = match index.entries {
        Some(n) => grouped(
            if n < 0 {
                0
            } else {
                n as int
            },
        ) + " entries"@,
        None => "entry count unknown"@,
    };
    let bytes = match index.bytes {
        Some(n) => size_text(n as nat),
        None => "absent"@,
    };
    let tail = match files {
        Some(n) => "   worktree "@ + grouped(n as int) + " file(s)"@,
        None => Seq::empty(),
    };
    assert(whole =~= head + ": "@ + entries + ", "@ + bytes + tail);
    assert(whole.subrange(0, (head + ": "@).len() as int) =~= head + ": "@);
    lemma_has_part(whole, head, ": "@ + entries + ", "@, bytes + tail);
    lemma_has_part(whole, head + ": "@ + entries, ", "@ + bytes, tail);
    assert(" entries"@ + ", "@ =~= " entries, "@);
    if let Some(n) = index.entries {
        if n >= 0 {
            assert(": "@ + entries + ", "@ =~= ": "@ + grouped(n as int) + " entries, "@);
        }
    }
    if files is Some {
        assert(whole.subrange(whole.len() - tail.len(), whole.len() as int) =~= tail);
    }
}

/// The parts of a checkout that git timed are told in the order in which they
/// happen, those that it did not time are left out, and there is no line for them
/// where it timed none.
pub proof fn law_only_timed_parts_are_told(
    report: UpdateWorktreeReport,
    t: UpdateTimes,
    tree: Seq<char>,
)
    ensures
        update_lines_of(report, t, tree).len() == if t.load_index is None && t.resolve_tree is None
            && t.apply is None && t.write_index is None {
            4nat
        } else {
            5nat
        },
        update_lines_of(report, t, tree)[0] == "Updated worktree "@ + report.worktree@
            + " from stream "@ + report.stream@ + " in "@ + t.total@,
        ("  tree "@ + tree + " \u{2014} "@).is_prefix_of(update_lines_of(report, t, tree)[1]),
        (" ("@ + decimal(report.clean.removed as int) + " removed)"@).is_suffix_of(
            update_lines_of(report, t, tree)[3],
        ),
        t.load_index matches Some(took) ==> phases(t)[0] == "load index "@ + took@,
        t.write_index matches Some(took) ==> phases(t).last() == "write index "@ + took@,
        t.resolve_tree matches Some(took) ==> phases(t).contains("resolve tree "@ + took@),
        t.apply matches Some(took) ==> phases(t).contains("apply "@ + took@),
        phases(t).len() <= 4,
{
    reveal_strlit("load index ");
    reveal_strlit("load index");
    reveal_strlit("write index ");
    reveal_strlit("write index");
    reveal_strlit("resolve tree ");
    reveal_strlit("resolve tree");
    reveal_strlit("apply ");
    reveal_strlit("apply");
    reveal_strlit(" ");
    assert("load index"@ + " "@ =~= "load index "@);
    assert("write index"@ + " "@ =~= "write index "@);
    assert("resolve tree"@ + " "@ =~= "resolve tree "@);
    assert("apply"@ + " "@ =~= "apply "@);
    let lines = update_lines_of(report, t, tree);
    let head = "  tree "@ + tree + " \u{2014} "@;
    assert(lines[1].subrange(0, head.len() as int) =~= head);
    let tail = " ("@ + decimal(report.clean.removed as int) + " removed)"@;
    assert(lines[3].subrange(lines[3].len() - tail.len(), lines[3].len() as int) =~= tail);
    let a = phase("load index"@, t.load_index);
    let b = phase("resolve tree"@, t.resolve_tree);
    let c = phase("apply"@, t.apply);
    if t.resolve_tree is Some {
        assert(phases(t)[a.len() as int] == b[0]);
    }
    if t.apply is Some {
        assert(phases(t)[(a.len() + b.len()) as int] == c[0]);
    }
}

/// A finding is marked as an error or a warning exactly where it is one, and is
/// followed by what to do about it, where that is known, in indented lines.
pub proof fn law_a_finding_is_marked_by_its_verdict(check: CheckView)
    ensures
        mark_of(check.status) == "ERROR"@ <==> check.status == "error"@,
        mark_of(check.status) == " WARN"@ <==> check.status == "warn"@,
        check_lines(check)[0] == mark_of(check.status) + "  "@ + padded_right(check.name, 16)
            + " "@ + check.summary,
        check.remedy is None ==> check_lines(check).len() == 1,
        check.remedy matches Some(text) ==> check_lines(check).len() == 1 + wrapped(
            Seq::empty(),
            words_of(text),
            68,
        ).len() && forall|i: int|
            1 <= i < check_lines(check).len() ==> #[trigger] check_lines(check)[i] == "       "@
                + wrapped(Seq::empty(), words_of(text), 68)[i - 1],
{
    reveal_strlit("ERROR");
    reveal_strlit(" WARN");
    reveal_strlit("   ok");
    reveal_strlit("error");
    reveal_strlit("warn");
    assert("error"@.len() == 5 && "warn"@.len() == 4);
    assert("ERROR"@[0] == 'E' && " WARN"@[1] == 'W' && "   ok"@[0] == ' ' && "   ok"@[1] == ' ');
    assert(" WARN"@[0] == ' ');
}

/// The findings are told one after the other, and the last line says how many
/// errors and warnings there are, or that there are none.
pub proof fn law_findings_are_told_in_order(report: DoctorReport, checks: Seq<Check>, more: Seq<Check>)
    ensures
        all_check_lines(checks + more) == all_check_lines(checks) + all_check_lines(more),
        checks.len() == 1 ==> all_check_lines(checks) == check_lines(checks[0]@),
        doctor_tail(report).last() == "Nothing to report."@ || doctor_tail(report).last() == decimal(
            count_status(report.checks@, "error"@) as int,
        ) + " error(s), "@ + decimal(count_status(report.checks@, "warn"@) as int)
            + " warning(s)."@,
        count_status(report.checks@, "error"@) + count_status(report.checks@, "warn"@) == 0
            ==> doctor_tail(report).last() == "Nothing to report."@,
        count_status(report.checks@, "error"@) + count_status(report.checks@, "warn"@) > 0
            ==> doctor_tail(report).last() == decimal(
            count_status(report.checks@, "error"@) as int,
        ) + " error(s), "@ + decimal(count_status(report.checks@, "warn"@) as int)
            + " warning(s)."@,
    decreases more.len(),
{
    if checks.len() == 1 {
        assert(checks.drop_last() =~= Seq::<Check>::empty());
        assert(all_check_lines(checks.drop_last()) =~= Seq::<Seq<char>>::empty());
        assert(all_check_lines(checks) =~= check_lines(checks[0]@));
    }
    if more.len() == 0 {
        assert(checks + more =~= checks);
        assert(all_check_lines(checks) + all_check_lines(more) =~= all_check_lines(checks));
    } else {
        law_findings_are_told_in_order(report, checks, more.drop_last());
        assert((checks + more).drop_last() =~= checks + more.drop_last());
        assert(all_check_lines(checks + more) =~= all_check_lines(checks) + all_check_lines(more));
    }
}

/// A table of metrics has a line for each field between its two lines of heading
/// and an empty one, and its columns stand one below the other where what they
/// hold fits.
pub proof fn law_a_table_has_a_line_for_each_field(
    tables: Seq<MetricsTable>,
    table: MetricsTable,
    i: int,
)
    requires
        0 <= i < table.rows@.len(),
    ensures
        tables_lines(tables.push(table)) == tables_lines(tables) + table_lines(table),
        table_lines(table).len() == table.rows@.len() + 3,
        table_lines(table)[0] == table.kind@ + " ("@ + decimal(table.records as int)
            + " record(s))"@,
        table_lines(table)[i + 2] == columns(
            table.rows@[i].field@,
            table.rows@[i].p50@,
            table.rows@[i].p95@,
            table.rows@[i].max@,
        ),
        table_lines(table).last() == ""@,
        table.rows@[i].field@.len() <= 34 && table.rows@[i].p50@.len() <= 10
            && table.rows@[i].p95@.len() <= 10 && table.rows@[i].max@.len() <= 10
            ==> table_lines(table)[i + 2].len() == table_lines(table)[1].len(),
        table_lines(table)[1].len() == 2 + 34 + 1 + 10 + 1 + 10 + 1 + 10,
{
    reveal_strlit("  ");
    reveal_strlit(" ");
    assert(tables.push(table).drop_last() =~= tables);
    reveal_strlit("field");
    reveal_strlit("p50");
    reveal_strlit("p95");
    reveal_strlit("max");
}

/// A stream is stale once more than so many days have passed since it was
/// committed, each of twenty-four hours.
pub proof fn law_a_stream_is_stale_after_so_many_days(
    now: i64,
    older_than_days: u64,
    r: Option<i64>,
    committed: i64,
)
    requires
        is_cutoff(now, older_than_days, r),
    ensures
        (r matches Some(cutoff) && committed < cutoff) <==> now - committed > older_than_days * (24
            * 60 * 60),
{
}

} // verus!
