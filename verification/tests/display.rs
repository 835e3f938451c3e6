//! How things are shown.

use git_full_send::checkout::UpdateWorktreeReport;
use git_full_send::display::{
    human_bytes, human_count, join_texts, push_padded_left, push_padded_right, short_oid, wrap,
};
use git_full_send::encode::{CodeLayerStats, ExtraLayerStats};
use git_full_send::numbers::{as_double, double_bits, key_of_double, rounded_quotient};
use git_full_send::pktline::WireCounts;
use git_full_send::probe::ProbeReport;
use git_full_send::protocol::StreamId;
use git_full_send::push::PushWire;
use git_full_send::report::{
    metrics_lines, probe_lines, sync_summary_lines, update_lines, MetricsRow, MetricsTable,
    SyncTimes, UpdateTimes,
};
use git_full_send::select::SelectStats;
use git_full_send::sync::{CodeLayer, ExtraLayer, SyncSummary};
use git_full_send::worktree::{ChangedPaths, CleanStats, IndexState, PathDelta};

#[test]
fn human_bytes_uses_binary_units() {
    assert_eq!(human_bytes(0), "0 B");
    assert_eq!(human_bytes(512), "512 B");
    assert_eq!(human_bytes(1023), "1023 B");
    assert_eq!(human_bytes(1024), "1.0 KiB");
    assert_eq!(human_bytes(1536), "1.5 KiB");
    assert_eq!(human_bytes(1024 * 1024), "1.0 MiB");
    assert_eq!(human_bytes(1024 * 1024 * 1024), "1.0 GiB");
}

/// The same with floating point.
fn with_floats(n: u64) -> String {
    let units = ["B", "KiB", "MiB", "GiB", "TiB"];
    if n < 1024 {
        return format!("{n} B");
    }
    let mut value = n as f64;
    let mut unit = 0;
    while value >= 1024.0 && unit < units.len() - 1 {
        value /= 1024.0;
        unit += 1;
    }
    format!("{value:.1} {}", units[unit])
}

#[test]
fn sizes_are_rounded_as_floats_are() {
    let mut seen: u64 = 0x1234_5678_9abc_def1;
    for shift in 0..64 {
        for base in [1u64 << shift, (1u64 << shift).wrapping_sub(1), (1u64 << shift) + 1] {
            assert_eq!(human_bytes(base), with_floats(base), "{base}");
        }
        for _ in 0..40 {
            seen = seen.wrapping_mul(6364136223846793005).wrapping_add(1442695040888963407);
            let n = seen >> shift;
            assert_eq!(human_bytes(n), with_floats(n), "{n}");
        }
    }
    // Halfway between two tenths.
    for n in [1024 * 5 / 4, 1024 * 7 / 4, 1024 * 9 / 4, 51 * 1024 + 256, u64::MAX] {
        assert_eq!(human_bytes(n), with_floats(n), "{n}");
    }
}

#[test]
fn doubles_are_computed_with_integers() {
    let mut seen: u64 = 99;
    for _ in 0..2000 {
        seen = seen.wrapping_mul(6364136223846793005).wrapping_add(1442695040888963407);
        for shift in [0, 5, 11, 20, 40] {
            let n = seen >> shift;
            assert_eq!(double_bits(n), (n as f64).to_bits(), "{n}");
            assert_eq!(as_double(n), (n as f64) as u128, "{n}");
        }
    }
    for n in [0, 1, u64::MAX, (1 << 53) + 1, (1 << 54) + 2, (1 << 54) + 6] {
        assert_eq!(double_bits(n), (n as f64).to_bits(), "{n}");
    }
}

#[test]
fn doubles_are_ordered_by_their_keys() {
    let sorted = [f64::MIN, -2.5, -1e-300, 0.0, 1e-300, 1.0, 2.5, 1e300, f64::MAX];
    for pair in sorted.windows(2) {
        assert!(key_of_double(pair[0].to_bits()) < key_of_double(pair[1].to_bits()));
    }
    assert_eq!(key_of_double(0.0f64.to_bits()), key_of_double((-0.0f64).to_bits()));
    assert_eq!(rounded_quotient(5, 2), 2);
    assert_eq!(rounded_quotient(7, 2), 4);
    assert_eq!(rounded_quotient(8, 3), 3);
}

#[test]
fn counts_are_grouped_in_threes() {
    for (n, text) in [
        (0, "0"),
        (7, "7"),
        (999, "999"),
        (1000, "1,000"),
        (28709, "28,709"),
        (100_000, "100,000"),
        (1_234_567, "1,234,567"),
        (u64::MAX, "18,446,744,073,709,551,615"),
    ] {
        assert_eq!(human_count(n), text);
        assert_eq!(human_count(n).replace(',', ""), n.to_string());
    }
}

#[test]
fn object_names_are_cut_to_twelve() {
    assert_eq!(short_oid("0123456789abcdef"), "0123456789ab");
    assert_eq!(short_oid("0123456789ab"), "0123456789ab");
    assert_eq!(short_oid("01"), "01");
    assert_eq!(short_oid(""), "");
    assert_eq!(short_oid("üüüüüü?"), "üüüüüü");
}

#[test]
fn paragraphs_are_wrapped_at_white_space() {
    assert_eq!(wrap("a bb ccc", 4), ["a bb", "ccc"]);
    assert_eq!(wrap("a bb ccc", 3), ["a", "bb", "ccc"]);
    assert_eq!(wrap("  a\n\tb  ", 80), ["a b"]);
    assert_eq!(wrap("toolong a", 3), ["toolong", "a"]);
    assert!(wrap(" \n", 10).is_empty());
    // A width is one of bytes.
    assert_eq!(wrap("üü a", 5), ["üü", "a"]);
    let text = "the quick brown fox jumps over the lazy dog and runs away";
    for width in 1..60 {
        let lines = wrap(text, width);
        assert_eq!(lines.join(" "), text);
        assert!(lines.iter().all(|l| l.len() <= width || !l.contains(' ')));
    }
}

#[test]
fn columns_are_padded() {
    let mut out = String::new();
    push_padded_right(&mut out, "ab", 4);
    push_padded_left(&mut out, "cd", 4);
    push_padded_right(&mut out, "longer", 2);
    assert_eq!(out, "ab    cdlonger");
    let parts: Vec<String> = ["x", "y", "z"].iter().map(|s| s.to_string()).collect();
    assert_eq!(join_texts(&parts, ", "), "x, y, z");
    assert_eq!(join_texts(&Vec::new(), ", "), "");
}

fn counts(total: u64, pre_flush: u64, pre_flush_pkts: u64, post_flush: u64) -> WireCounts {
    WireCounts {
        total,
        pre_flush,
        pre_flush_pkts,
        post_flush,
    }
}

fn summary(unanchored: usize) -> SyncSummary {
    SyncSummary {
        stream: StreamId::new("laptop").unwrap(),
        remote: "127.0.0.1:9419".to_string(),
        code: CodeLayer {
            stats: CodeLayerStats {
                files_overlaid: 3,
                bytes_overlaid: 1536,
                files_removed: 1,
                index_entries: 34012,
                status_items: 4,
            },
            wire: PushWire {
                sent: counts(2048, 1024, 1, 1024),
                received: counts(3 << 20, 3 << 20, 28709, 10),
            },
            commit: "c".to_string(),
            tree: "t".to_string(),
        },
        extra: ExtraLayer {
            stats: ExtraLayerStats {
                files: 2,
                bytes: 10,
                select: SelectStats {
                    dirs_entered: 1200,
                    dirs_pruned: 3,
                    paths_considered: 40000,
                    unanchored_patterns: unanchored,
                },
            },
            wire: PushWire::default(),
            commit: "c".to_string(),
            tree: "t".to_string(),
        },
    }
}

fn sync_times() -> SyncTimes {
    let t = |s: &str| s.to_string();
    SyncTimes {
        total: t("1.4s"),
        code_encode: t("10ms"),
        code_push: t("20ms"),
        extra_encode: t("30ms"),
        extra_push: t("40ms"),
        hash: t("5ms"),
        select: t("6ms"),
    }
}

#[test]
fn a_sync_is_printed() {
    assert_eq!(
        sync_summary_lines(&summary(0), &sync_times()),
        [
            "Synced stream laptop to 127.0.0.1:9419 in 1.4s",
            "  code:  3 file(s) (+1.5 KiB), 1 removed   encode 10ms · push 20ms",
            "  extra: 2 file(s) (10 B)   encode 30ms · push 40ms",
            "         code wire: sent 2.0 KiB (1.0 KiB pack) · received 3.0 MiB (3.0 MiB advertising 28,709 ref(s))",
            "         extra wire: sent 0 B (0 B pack) · received 0 B (0 B advertising 0 ref(s))",
            "         index 34,012 entries · status 4 item(s) · hashed 3 file(s) in 5ms",
            "         walk 1,200 dir(s), 3 pruned, 40,000 path(s) considered in 6ms",
        ]
    );
    let lines = sync_summary_lines(&summary(2), &sync_times());
    assert_eq!(
        lines[6],
        "         walk 1,200 dir(s), 3 pruned, 40,000 path(s) considered in 6ms   (2 unanchored pattern(s) — no directory could be pruned)"
    );
}

fn update_report() -> UpdateWorktreeReport {
    UpdateWorktreeReport {
        stream: StreamId::new("laptop").unwrap(),
        worktree: "/w".to_string(),
        tree: "0123456789abcdef".to_string(),
        index: IndexState {
            state: "warm",
            bytes: Some(2048),
            entries: Some(34012),
        },
        changed: ChangedPaths {
            tree_unchanged: true,
            vs_index: Some(PathDelta {
                to_write: 1000,
                to_remove: 2,
            }),
            vs_worktree: Some(PathDelta {
                to_write: 0,
                to_remove: 1,
            }),
        },
        clean: CleanStats { removed: 5 },
        worktree_files: Some(12345),
    }
}

fn update_times(known: bool) -> UpdateTimes {
    let t = |s: &str| s.to_string();
    UpdateTimes {
        total: t("2.0s"),
        resolve: t("1ms"),
        measure: t("2ms"),
        read_tree: t("3ms"),
        clean: t("4ms"),
        load_index: if known { Some(t("40ms")) } else { None },
        resolve_tree: None,
        apply: if known { Some(t("7ms")) } else { None },
        write_index: None,
    }
}

#[test]
fn a_checkout_is_printed() {
    assert_eq!(
        update_lines(&update_report(), &update_times(true)),
        [
            "Updated worktree /w from stream laptop in 2.0s",
            "  tree 0123456789ab — 1,000 to write, 2 to remove (same tree as the last checkout); vs. disk 0 to write, 1 to remove",
            "  index warm: 34,012 entries, 2.0 KiB   worktree 12,345 file(s)",
            "  resolve 1ms · measure 2ms · read-tree 3ms · clean 4ms (5 removed)",
            "    read-tree: load index 40ms · apply 7ms",
        ]
    );
    let mut bare = update_report();
    bare.index = IndexState {
        state: "unknown",
        bytes: None,
        entries: None,
    };
    bare.changed = ChangedPaths {
        tree_unchanged: false,
        vs_index: None,
        vs_worktree: None,
    };
    bare.worktree_files = None;
    let lines = update_lines(&bare, &update_times(false));
    assert_eq!(lines.len(), 4);
    assert_eq!(lines[1], "  tree 0123456789ab — changed paths not measured");
    assert_eq!(lines[2], "  index unknown: entry count unknown, absent");
    bare.changed.vs_index = Some(PathDelta::default());
    bare.index.entries = Some(-3);
    let lines = update_lines(&bare, &update_times(false));
    assert_eq!(lines[1], "  tree 0123456789ab — nothing to write or remove");
    assert_eq!(lines[2], "  index unknown: 0 entries, absent");
}

#[test]
fn a_probe_is_printed() {
    let mut report = ProbeReport {
        remote: "h:1".to_string(),
        advertisement_bytes: 262_143,
        refs_advertised: 2000,
        refs_ours: 4,
    };
    assert_eq!(
        probe_lines(&report, "12ms"),
        [
            "h:1 is up (12ms)",
            "  ref advertisement: 256.0 KiB for 2,000 ref(s) (4 git-full-send's), on every connection",
        ]
    );
    report.advertisement_bytes = 262_144;
    assert_eq!(
        probe_lines(&report, "12ms")[2],
        "  note: that is paid per connection, and a sync makes two. Run `git-full-send doctor --repo <server-repo>` for what to do about it."
    );
}

#[test]
fn metrics_are_printed_in_columns() {
    assert_eq!(metrics_lines(&Vec::new()), ["no metrics recorded yet"]);
    let tables = vec![MetricsTable {
        kind: "sync".to_string(),
        records: 10,
        rows: vec![MetricsRow {
            field: "code.push_ms".to_string(),
            p50: "60.0".to_string(),
            p95: "100.0".to_string(),
            max: "100.0".to_string(),
        }],
    }];
    assert_eq!(
        metrics_lines(&tables),
        [
            "sync (10 record(s))".to_string(),
            format!("  {:<34} {:>10} {:>10} {:>10}", "field", "p50", "p95", "max"),
            format!(
                "  {:<34} {:>10.1} {:>10.1} {:>10.1}",
                "code.push_ms", 60.0, 100.0, 100.0
            ),
            String::new(),
        ]
    );
}
