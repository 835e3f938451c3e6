//! Encoding, pushing and syncing, and probing a server.

use std::collections::BTreeMap;

use git_full_send::auth::Token;
use git_full_send::bytes::ByteReader;
use git_full_send::encode::{
    blob_kind, code_commit, encode, encode_extra, extra_commit, overlay_edit, overlay_extra,
    CodeLayerStats, DiskItem, DiskObject, EncodeError, EncodeOutcome, EntryKind,
    ExtraLayerStats, ExtraOutcome, IndexEntry, ItemAction, SelectedFile, StatusItem, TreeEdit,
    TreeRecord, SYNTH_EMAIL, SYNTH_EXTRA_MESSAGE, SYNTH_MESSAGE, SYNTH_NAME,
};
use git_full_send::pktline::WireCounts;
use git_full_send::probe::{
    count_with_prefix, flush_pkt, opening_bytes, probe_report, read_advertisement, ref_name,
    Advertisement, AfterHeader, ProbeError,
};
use git_full_send::protocol::{ProtocolError, StreamId};
use git_full_send::push::{
    push_args, push_outcome, push_result, DeltaPolicy, PushError, PushWire, RETAIN_REFLOG,
};
use git_full_send::select::{SelectError, SelectStats};
use git_full_send::stream::StreamResolveError;
use git_full_send::sync::{ClientError, Sync, SyncAction, SyncEvent};

fn entry(path: &str, kind: Option<EntryKind>, conflicted: bool) -> IndexEntry {
    IndexEntry {
        path: path.as_bytes().to_vec(),
        conflicted,
        kind,
        id: format!("index-{path}"),
    }
}

fn file(mode: u32, id: &str, len: u64) -> DiskObject {
    DiskObject::File {
        mode,
        id: id.to_string(),
        len,
    }
}

fn path(s: &str) -> Vec<u8> {
    s.as_bytes().to_vec()
}

/// The tree that edits make of another. What is put takes the place of what stands in
/// its way.
fn edited(
    mut held: BTreeMap<String, (EntryKind, String)>,
    edits: &[TreeEdit],
) -> BTreeMap<String, (EntryKind, String)> {
    let under = |a: &str, b: &str| a.starts_with(&format!("{b}/"));
    for edit in edits {
        match edit {
            TreeEdit::Upsert { path, kind, id } => {
                let at = String::from_utf8(path.clone()).unwrap();
                held.retain(|p, _| !under(p, &at) && !under(&at, p));
                held.insert(at, (*kind, id.clone()));
            }
            TreeEdit::Remove { path } => {
                let at = String::from_utf8(path.clone()).unwrap();
                held.retain(|p, _| *p != at && !under(p, &at));
            }
        }
    }
    held
}

/// What a tree holds after edits of the empty tree.
fn tree(edits: &[TreeEdit]) -> BTreeMap<String, (EntryKind, String)> {
    edited(BTreeMap::new(), edits)
}

/// The `code` tree is the working state: what is committed, staged, changed, new
/// and gone, each as it is on disk.
#[test]
fn code_tree_equals_on_disk_working_state() {
    let entries = vec![
        entry("kept", Some(EntryKind::Blob), false),
        entry("changed", Some(EntryKind::Blob), false),
        entry("gone", Some(EntryKind::Blob), false),
        entry("both", Some(EntryKind::Blob), true),
        entry("module", Some(EntryKind::Commit), false),
        entry("odd", None, false),
    ];
    let items = vec![
        DiskItem {
            item: StatusItem::Modified { path: path("changed") },
            disk: Some(file(0o100755, "new-changed", 10)),
        },
        DiskItem {
            item: StatusItem::Removed { path: path("gone") },
            disk: None,
        },
        DiskItem {
            item: StatusItem::Conflict { path: path("both") },
            disk: Some(file(0o100644, "disk-both", 5)),
        },
        DiskItem {
            item: StatusItem::SubmoduleModified { path: path("module") },
            disk: None,
        },
        DiskItem {
            item: StatusItem::NeedsUpdate { path: path("kept") },
            disk: None,
        },
        DiskItem {
            item: StatusItem::Found {
                path: path("new"),
                untracked: true,
                is_file_or_link: true,
            },
            disk: Some(DiskObject::Link {
                id: "target".to_string(),
                len: 3,
            }),
        },
        DiskItem {
            item: StatusItem::Found {
                path: path("ignored"),
                untracked: false,
                is_file_or_link: true,
            },
            disk: None,
        },
        DiskItem {
            item: StatusItem::IntentToAdd { path: path("fifo") },
            disk: Some(DiskObject::Unrepresentable),
        },
        DiskItem {
            item: StatusItem::Rewrite,
            disk: None,
        },
    ];
    let encoded = encode(&entries, &items);
    let held = tree(&encoded.edits);
    let expected: BTreeMap<String, (EntryKind, String)> = [
        ("kept", EntryKind::Blob, "index-kept"),
        ("changed", EntryKind::BlobExecutable, "new-changed"),
        ("both", EntryKind::Blob, "disk-both"),
        ("module", EntryKind::Commit, "index-module"),
        ("new", EntryKind::Link, "target"),
    ]
    .into_iter()
    .map(|(p, k, id)| (p.to_string(), (k, id.to_string())))
    .collect();
    assert_eq!(held, expected);
    assert_eq!(
        encoded.stats,
        CodeLayerStats {
            files_overlaid: 4,
            bytes_overlaid: 18,
            files_removed: 1,
            index_entries: 6,
            status_items: 9,
        }
    );
}

#[test]
fn encodes_unborn_head_with_untracked_files() {
    let items = vec![DiskItem {
        item: StatusItem::Found {
            path: path("hello.txt"),
            untracked: true,
            is_file_or_link: true,
        },
        disk: Some(file(0o100644, "blob", 5)),
    }];
    let encoded = encode(&Vec::new(), &items);
    assert_eq!(tree(&encoded.edits).len(), 1);
    let commit = code_commit("tree", None);
    assert!(commit.parents.is_empty(), "an unborn HEAD has no parent");
    assert_eq!(commit.message, SYNTH_MESSAGE);
}

#[test]
fn preserves_executable_bit_and_symlinks() {
    assert_eq!(blob_kind(0o100755), EntryKind::BlobExecutable);
    assert_eq!(blob_kind(0o100644), EntryKind::Blob);
    assert_eq!(blob_kind(0o100655), EntryKind::Blob);
    match overlay_edit(b"l", &DiskObject::Link { id: "t".to_string(), len: 1 }) {
        Some(TreeEdit::Upsert { kind, .. }) => assert_eq!(kind, EntryKind::Link),
        _ => panic!("a link is held"),
    }
    assert!(overlay_edit(b"s", &DiskObject::Unrepresentable).is_none());
    assert_eq!(DiskObject::Unrepresentable.len(), 0);
    assert_eq!(file(0, "x", 7).len(), 7);
}

#[test]
fn differences_ask_for_what_the_disk_says() {
    let found = |untracked, is_file_or_link| StatusItem::Found {
        path: path("f"),
        untracked,
        is_file_or_link,
    };
    for (item, action) in [
        (StatusItem::Removed { path: path("f") }, ItemAction::Remove),
        (StatusItem::Modified { path: path("f") }, ItemAction::Overlay),
        (StatusItem::TypeChanged { path: path("f") }, ItemAction::Overlay),
        (StatusItem::IntentToAdd { path: path("f") }, ItemAction::Overlay),
        (StatusItem::Conflict { path: path("f") }, ItemAction::Overlay),
        (StatusItem::SubmoduleModified { path: path("f") }, ItemAction::Keep),
        (StatusItem::NeedsUpdate { path: path("f") }, ItemAction::Keep),
        (found(true, true), ItemAction::Overlay),
        (found(true, false), ItemAction::Keep),
        (found(false, true), ItemAction::Keep),
    ] {
        assert_eq!(item.action(), action);
        assert_eq!(item.path(), b"f");
    }
    assert_eq!(StatusItem::Rewrite.action(), ItemAction::Keep);
}

#[test]
fn empty_selection_still_produces_an_extra_commit() {
    let encoded = encode_extra(&Vec::new(), SelectStats::default());
    assert!(encoded.edits.is_empty(), "the extra tree is empty");
    let commit = extra_commit("4b825dc642cb6eb9a060e54bf8d69288fbee4904", None);
    assert_eq!(commit.tree, "4b825dc642cb6eb9a060e54bf8d69288fbee4904");
}

#[test]
fn first_extra_commit_is_rootless_then_chains_onto_the_retained_tip() {
    assert!(
        extra_commit("t1", None).parents.is_empty(),
        "the first extra commit has no parent",
    );
    let second = extra_commit("t2", Some("first"));
    assert_eq!(second.parents, ["first"]);
    assert_eq!(second.message, SYNTH_EXTRA_MESSAGE);
    assert_eq!(second.name, SYNTH_NAME);
    assert_eq!(second.email, SYNTH_EMAIL);
    assert_eq!(code_commit("t", Some("head")).parents, ["head"]);
}

#[test]
fn selected_files_make_the_extra_tree() {
    let files = vec![
        SelectedFile {
            path: path("dist/app.js"),
            disk: file(0o100644, "a", 4),
        },
        SelectedFile {
            path: path("dist/socket"),
            disk: DiskObject::Unrepresentable,
        },
        SelectedFile {
            path: path("dist/run"),
            disk: file(0o100755, "b", 6),
        },
    ];
    let select = SelectStats {
        dirs_entered: 2,
        ..SelectStats::default()
    };
    let encoded = encode_extra(&files, select);
    let held = tree(&encoded.edits);
    assert_eq!(held.len(), 2);
    assert_eq!(held["dist/run"], (EntryKind::BlobExecutable, "b".to_string()));
    assert_eq!(
        encoded.stats,
        ExtraLayerStats {
            files: 3,
            bytes: 10,
            select
        }
    );
}

fn record(p: &str, kind: EntryKind, id: &str) -> TreeRecord {
    TreeRecord {
        path: path(p),
        kind,
        id: id.to_string(),
    }
}

/// Every leaf of `extra` is put at its own path, and its directories are implied.
#[test]
fn extra_is_laid_over_code_at_identity_paths() {
    let edits = overlay_extra(&vec![
        record("dist", EntryKind::Tree, "dir"),
        record("link", EntryKind::Link, "l"),
        record("dist/app.js", EntryKind::Blob, "new"),
        record("dist/sub", EntryKind::Tree, "sub"),
        record("dist/sub/run", EntryKind::BlobExecutable, "x"),
    ]);
    let puts: Vec<(&[u8], EntryKind)> = edits
        .iter()
        .map(|edit| match edit {
            TreeEdit::Upsert { path, kind, .. } => (&path[..], *kind),
            TreeEdit::Remove { .. } => panic!("nothing is removed"),
        })
        .collect();
    assert_eq!(
        puts,
        [
            (&b"link"[..], EntryKind::Link),
            (&b"dist/app.js"[..], EntryKind::Blob),
            (&b"dist/sub/run"[..], EntryKind::BlobExecutable),
        ]
    );
    assert!(overlay_extra(&vec![record("d", EntryKind::Tree, "dir")]).is_empty());
}

/// A directory that both layers have holds what either has in it.
#[test]
fn a_directory_of_extra_leaves_what_code_has_in_it() {
    let code: BTreeMap<String, (EntryKind, String)> = [
        ("d/a", "old"),
        ("d/b", "beside"),
        ("src", "s"),
        ("was-file", "f"),
        ("was-dir/x", "x"),
    ]
    .into_iter()
    .map(|(p, id)| (p.to_string(), (EntryKind::Blob, id.to_string())))
    .collect();
    let held = edited(
        code,
        &overlay_extra(&vec![
            record("d", EntryKind::Tree, "dir"),
            record("was-dir", EntryKind::Blob, "file"),
            record("was-file", EntryKind::Tree, "dir"),
            record("d/a", EntryKind::Blob, "new"),
            record("was-file/y", EntryKind::Blob, "y"),
        ]),
    );
    let ids: Vec<(&str, &str)> =
        held.iter().map(|(p, (_, id))| (p.as_str(), id.as_str())).collect();
    assert_eq!(
        ids,
        [
            ("d/a", "new"),
            ("d/b", "beside"),
            ("src", "s"),
            ("was-dir", "file"),
            ("was-file/y", "y"),
        ]
    );
}

fn names(v: &[&str]) -> Vec<String> {
    v.iter().map(|s| s.to_string()).collect()
}

#[test]
fn a_push_is_asked_of_git_by_its_policy() {
    assert_eq!(DeltaPolicy::default(), DeltaPolicy::Thin);
    assert_eq!(
        push_args(&names(&["refs/a"]), DeltaPolicy::Thin, 5, 6),
        [
            "-c",
            "protocol.fd.allow=always",
            "push",
            "--thin",
            "fd::5,6",
            "+refs/a:refs/a",
        ]
    );
    assert_eq!(
        push_args(&names(&["refs/a", "refs/b"]), DeltaPolicy::WholeObject, 10, -1),
        [
            "-c",
            "protocol.fd.allow=always",
            "-c",
            "pack.window=0",
            "push",
            "--no-thin",
            "fd::10,-1",
            "+refs/a:refs/a",
            "+refs/b:refs/b",
        ]
    );
    assert_eq!(RETAIN_REFLOG, "git-full-send: retain pushed tip");
}

fn counts(total: u64) -> WireCounts {
    WireCounts {
        total,
        pre_flush: 1,
        pre_flush_pkts: 1,
        post_flush: total - 1,
    }
}

#[test]
fn a_failed_push_says_why() {
    match push_result(true, "exit status: 0", "", counts(5), counts(6)) {
        Ok(wire) => {
            assert_eq!(wire.sent, counts(5));
            assert_eq!(wire.received, counts(6));
        }
        Err(_) => panic!("a push"),
    }
    match push_outcome(false, "exit status: 128", b" remote: no\xff \n", counts(5), counts(6)) {
        Err(e) => assert_eq!(
            e.message(),
            "`git push` failed (exit status: 128): remote: no\u{fffd}"
        ),
        Ok(_) => panic!("no push"),
    }
}

#[test]
fn messages_of_push_errors() {
    let s = || "why".to_string();
    let p = || "/r".to_string();
    for (error, text) in [
        (
            PushError::OpenRepo { path: p(), source: s() },
            "could not open a Git repository at or above `/r`",
        ),
        (PushError::NoWorktree(p()), "repository at `/r` has no working tree"),
        (
            PushError::Connect { remote: "h:1".to_string(), source: s() },
            "could not connect to `h:1`",
        ),
        (PushError::Spawn(s()), "could not spawn `git push`"),
        (PushError::Io(s()), "I/O error during push"),
        (
            PushError::RetainRef { ref_name: "refs/x".to_string(), source: s() },
            "could not update `refs/x`",
        ),
    ] {
        assert_eq!(error.message(), text);
    }
}

#[test]
fn messages_of_encode_errors() {
    let s = || "why".to_string();
    let p = || "/r".to_string();
    for (error, text) in [
        (
            EncodeError::OpenRepo { path: p(), source: s() },
            "could not open a Git repository at or above `/r`",
        ),
        (EncodeError::NoWorktree(p()), "repository at `/r` has no working tree"),
        (EncodeError::Head(s()), "could not resolve HEAD"),
        (EncodeError::ExtraParent(s()), "could not resolve the previous `extra` tip"),
        (
            EncodeError::Select(SelectError::ReadPatternFile { path: p(), source: s() }),
            "could not read include pattern file `/r`",
        ),
        (EncodeError::OpenIndex(s()), "could not open the repository index"),
        (
            EncodeError::ReadWorktree { path: p(), source: s() },
            "could not read worktree path `/r`",
        ),
        (EncodeError::Status(s()), "could not compute working-tree status"),
        (EncodeError::BuildTree(s()), "could not build the working-tree tree"),
        (EncodeError::WriteObject(s()), "could not write a Git object"),
        (
            EncodeError::UpdateRef { ref_name: "refs/x".to_string(), source: s() },
            "could not update `refs/x`",
        ),
    ] {
        assert_eq!(error.message(), text);
    }
}

#[test]
fn a_failed_sync_says_what_failed() {
    for (error, text) in [
        (
            ClientError::Protocol(ProtocolError::Protocol("x".to_string())),
            "protocol error: x",
        ),
        (
            ClientError::Stream(StreamResolveError::RunGit("x".to_string())),
            "could not run `git config`",
        ),
        (
            ClientError::Encode(EncodeError::Head("x".to_string())),
            "could not resolve HEAD",
        ),
        (
            ClientError::Push(PushError::Spawn("x".to_string())),
            "could not spawn `git push`",
        ),
    ] {
        assert_eq!(error.message(), text);
    }
}

/// Runs a sync, and lists what it did. The step at `fails` fails.
fn run(fails: usize) -> (Vec<String>, Result<(), ClientError>) {
    let stream = StreamId::new("laptop").unwrap();
    let mut sync = Sync::new(stream.clone(), "h:1".to_string());
    let mut log = Vec::new();
    loop {
        let event = match sync.action() {
            SyncAction::EncodeCode { ref_name } => {
                log.push(format!("encode {ref_name}"));
                SyncEvent::CodeEncoded(EncodeOutcome::new(
                    &stream,
                    "c1".to_string(),
                    "t1".to_string(),
                    CodeLayerStats::default(),
                ))
            }
            SyncAction::EncodeExtra { ref_name, parent_ref } => {
                log.push(format!("encode {ref_name} on {parent_ref}"));
                SyncEvent::ExtraEncoded(ExtraOutcome::new(
                    &stream,
                    "c2".to_string(),
                    "t2".to_string(),
                    ExtraLayerStats::default(),
                ))
            }
            SyncAction::Push { ref_name, policy } => {
                log.push(format!("push {ref_name} {policy:?}"));
                SyncEvent::Pushed(PushWire {
                    sent: counts(log.len() as u64),
                    received: counts(9),
                })
            }
            SyncAction::Retain { sent_ref, commit } => {
                log.push(format!("retain {commit} {sent_ref}"));
                SyncEvent::Retained
            }
            SyncAction::Finish | SyncAction::Stop => break,
        };
        let event = match event {
            event if log.len() != fails + 1 => event,
            SyncEvent::CodeEncoded(_) | SyncEvent::ExtraEncoded(_) => {
                SyncEvent::EncodeFailed(EncodeError::Head("gone".to_string()))
            }
            _ => SyncEvent::PushFailed(PushError::Spawn("gone".to_string())),
        };
        sync = sync.on_event(event);
    }
    match sync.outcome() {
        Some(Ok(summary)) => {
            assert_eq!(summary.stream.as_str(), "laptop");
            assert_eq!(summary.remote, "h:1");
            assert_eq!(summary.code.commit, "c1");
            assert_eq!(summary.code.tree, "t1");
            assert_eq!(summary.code.wire.sent, counts(3));
            assert_eq!(summary.extra.commit, "c2");
            assert_eq!(summary.extra.tree, "t2");
            assert_eq!(summary.extra.wire.sent, counts(5));
            (log, Ok(()))
        }
        Some(Err(e)) => (log, Err(e)),
        None => panic!("the sync is over"),
    }
}

#[test]
fn a_sync_pushes_each_chain_and_pins_its_tip() {
    let p = "refs/git-full-send/streams/laptop";
    let (log, done) = run(usize::MAX - 1);
    assert!(done.is_ok());
    assert_eq!(
        log,
        [
            format!("encode {p}/code"),
            format!("encode {p}/extra on {p}/sent/extra"),
            format!("push {p}/code Thin"),
            format!("retain c1 {p}/sent/code"),
            format!("push {p}/extra WholeObject"),
            format!("retain c2 {p}/sent/extra"),
        ]
    );
}

#[test]
fn a_failure_ends_a_sync_and_leaves_earlier_pins() {
    for step in 0..6 {
        let (log, done) = run(step);
        match done {
            Err(ClientError::Encode(EncodeError::Head(source))) if step < 2 => {
                assert_eq!(source, "gone")
            }
            Err(ClientError::Push(PushError::Spawn(source))) if step >= 2 => {
                assert_eq!(source, "gone")
            }
            _ => panic!("the step failed"),
        }
        assert_eq!(log.len(), step + 1);
    }
    // The push of `extra` fails behind the pin of `code`.
    let (log, _) = run(4);
    assert!(log[3].starts_with("retain c1 "));
}

#[test]
fn encoded_layers_name_their_refs() {
    let stream = StreamId::new("x").unwrap();
    let code = EncodeOutcome::new(&stream, "c".to_string(), "t".to_string(), CodeLayerStats::default());
    assert_eq!(code.code_ref, "refs/git-full-send/streams/x/code");
    let extra = ExtraOutcome::new(&stream, "c".to_string(), "t".to_string(), ExtraLayerStats::default());
    assert_eq!(extra.extra_ref, "refs/git-full-send/streams/x/extra");
}

#[test]
fn a_ref_line_yields_its_name_and_the_placeholder_yields_none() {
    assert_eq!(
        ref_name(b"1234567890abcdef refs/heads/main\0report-status side-band-64k"),
        Some("refs/heads/main".to_string()),
    );
    assert_eq!(ref_name(b"1234567890abcdef refs/tags/v1\n"), {
        Some("refs/tags/v1".to_string())
    });
    // An empty repository advertises this instead of a ref.
    assert_eq!(
        ref_name(b"0000000000000000000000000000000000000000 capabilities^{}\0report-status"),
        None,
    );
}

fn pkt(payload: &str) -> Vec<u8> {
    format!("{:04x}{payload}", payload.len() + 4).into_bytes()
}

#[test]
fn an_advertisement_is_measured() {
    let mut stream = pkt("1234 refs/heads/main\0caps");
    stream.extend(pkt("1234 refs/git-full-send/streams/a/code\n"));
    stream.extend_from_slice(b"0000");
    let bytes = stream.len() as u64;
    stream.extend_from_slice(b"what follows");
    let found = match read_advertisement(&mut ByteReader::new(stream)) {
        Some(found) => found,
        None => panic!("an advertisement"),
    };
    assert_eq!(found.bytes, bytes);
    assert_eq!(
        found.refs,
        names(&["refs/heads/main", "refs/git-full-send/streams/a/code"])
    );
    match probe_report("h:1", &found) {
        Ok(report) => {
            assert_eq!(report.remote, "h:1");
            assert_eq!(report.advertisement_bytes, bytes);
            assert_eq!(report.refs_advertised, 2);
            assert_eq!(report.refs_ours, 1);
        }
        Err(e) => panic!("{}", e.message()),
    }
}

#[test]
fn an_advertisement_that_breaks_off() {
    assert!(read_advertisement(&mut ByteReader::new(b"0010abc".to_vec())).is_none());
    match read_advertisement(&mut ByteReader::new(Vec::new())) {
        Some(found) => match probe_report("h:1", &found) {
            Err(ProbeError::NotReceivePack { remote }) => assert_eq!(remote, "h:1"),
            _ => panic!("nothing answered"),
        },
        None => panic!("an empty stream ends between lines"),
    }
    let mut found = Advertisement::new();
    assert!(matches!(found.on_header(b"0000"), AfterHeader::Done));
    assert!(matches!(found.on_header(b"000a"), AfterHeader::Payload(6)));
    assert_eq!(found.bytes, 8);
}

#[test]
fn what_is_not_framed_is_no_advertisement() {
    let mut stream = pkt("1234 refs/heads/main\0caps");
    stream.extend_from_slice(b"HTTP/1.1");
    for stream in [stream, b"HTTP/1.1".to_vec()] {
        let found = match read_advertisement(&mut ByteReader::new(stream)) {
            Some(found) => found,
            None => panic!("no line was announced"),
        };
        assert_eq!(found.bytes, 0);
        assert!(found.refs.is_empty());
        assert!(matches!(
            probe_report("h:1", &found),
            Err(ProbeError::NotReceivePack { .. })
        ));
    }
}

#[test]
fn a_probe_presents_its_secret_and_updates_nothing() {
    assert!(opening_bytes(None).is_empty());
    let token = match Token::new("secret", "the test") {
        Ok(t) => t,
        Err(_) => panic!("a token"),
    };
    assert_eq!(
        opening_bytes(Some(&token)),
        b"0021git-full-send-auth-v1 secret\n"
    );
    assert_eq!(flush_pkt(), b"0000");
    assert_eq!(count_with_prefix(&names(&["ab", "b", "abc"]), "ab"), 2);
}

#[test]
fn messages_of_probe_errors() {
    let s = || "h:1".to_string();
    for (error, text) in [
        (
            ProbeError::Connect { remote: s(), source: s() },
            "could not connect to `h:1`",
        ),
        (
            ProbeError::Exchange { remote: s(), source: s() },
            "could not complete the probe exchange with `h:1`",
        ),
        (
            ProbeError::NotReceivePack { remote: s() },
            "`h:1` answered, but not with a ref advertisement",
        ),
    ] {
        assert_eq!(error.message(), text);
    }
}
