//! Checking a repository.

use git_full_send::doctor::{
    advertised_refs, age_in_days, alternate_entries, anchor_names, anchors_of, check_alternates,
    check_anchors, check_autogc, check_objects, check_refs, check_worktree, doctor, format_bytes,
    freshest_advertised_secs, include_pattern_check, refs_unreadable, remote_anchor,
    resolve_alternate, startup_findings, Alternate, Alternates, Check, Detail, DoctorReport,
    ERROR, OK, WARN,
};
use git_full_send::report::doctor_lines;
use git_full_send::streams::StreamTip;

const DAY: i64 = 86_400;

fn names(v: &[&str]) -> Vec<String> {
    v.iter().map(|s| s.to_string()).collect()
}

/// The value under a name.
fn detail<'a>(check: &'a Check, name: &str) -> &'a Detail {
    for i in 0..check.detail.len() {
        if check.detail.name_at(i) == name {
            return check.detail.value_at(i);
        }
    }
    panic!("no `{name}`")
}

#[test]
fn bytes_format_with_binary_units() {
    assert_eq!(format_bytes(512), "512 B");
    assert_eq!(format_bytes(3 * 1024 * 1024), "3.0 MiB");
}

#[test]
fn a_missing_alternates_file_is_not_a_problem() {
    let check = check_alternates(&Alternates::Missing, "/r/objects/info/alternates");
    assert_eq!(check.status, OK);
}

/// The file as it is read, where only these directories are there.
fn alternates(contents: &str, objects: &str, there: &[&str]) -> Alternates {
    Alternates::Read(
        alternate_entries(contents)
            .into_iter()
            .map(|entry| {
                let path = resolve_alternate(objects.as_bytes(), &entry);
                let path = String::from_utf8(path).unwrap();
                let reachable = there.contains(&path.as_str());
                Alternate { entry, reachable }
            })
            .collect(),
    )
}

#[test]
fn an_unreachable_alternates_entry_is_an_error_with_a_remedy() {
    let file = alternates("/gone/repo.git/objects\n", "/r/objects", &[]);
    let check = check_alternates(&file, "/r/objects/info/alternates");
    assert_eq!(check.status, ERROR);
    assert!(
        check.summary.contains("/gone/repo.git/objects"),
        "it names the offending entry: {}",
        check.summary,
    );
    assert!(check.remedy.is_some(), "and says what to do about it");
    assert_eq!(
        check.summary,
        "1 of 1 alternate object store(s) unreachable: /gone/repo.git/objects"
    );
    assert!(matches!(detail(&check, "broken"), Detail::Texts(v) if v.len() == 1));
}

#[test]
fn a_reachable_relative_alternates_entry_is_ok() {
    let file = alternates(
        "../other-objects\n",
        "/dir/objects",
        &["/dir/objects/../other-objects"],
    );
    let check = check_alternates(&file, "/dir/objects/info/alternates");
    assert_eq!(check.status, OK, "{}", check.summary);
    assert_eq!(check.summary, "1 alternate object store(s), all reachable");
    assert!(matches!(detail(&check, "entries"), Detail::Count(1)));
}

#[test]
fn comments_in_an_alternates_file_are_no_entries() {
    assert_eq!(
        alternate_entries("# one\n\n  /two \r\n#three\n/four"),
        names(&["/two", "/four"])
    );
    let check = check_alternates(&Alternates::Unreadable("denied".to_string()), "/a");
    assert_eq!(check.status, ERROR);
    assert_eq!(check.summary, "could not read /a: denied");
    assert_eq!(check.remedy.as_deref(), Some("check the file's permissions"));
}

#[test]
fn a_remote_without_an_anchor_warns_with_a_set_head_remedy() {
    let all = names(&["refs/heads/main"]);
    assert_eq!(remote_anchor("origin", None, &all), None);
    let check = check_anchors(
        &advertised_refs(&Vec::new()),
        &names(&["origin"]),
        Some(0),
        DAY,
    );
    assert_eq!(check.status, WARN, "{}", check.summary);
    assert!(
        check
            .remedy
            .as_deref()
            .unwrap()
            .contains("git remote set-head origin --auto"),
        "the remedy names the fix: {:?}",
        check.remedy,
    );
    assert_eq!(
        check.remedy.as_deref(),
        Some(
            "without an anchor the curated advertisement (ADR-0020) offers a cold sync no fresh \
             delta base, so its first push sends a near-full pack. Run \
             `git remote set-head origin --auto` to record the remote's default branch"
        )
    );
}

#[test]
fn a_stale_anchor_warns_that_a_cold_sync_will_pay_for_it() {
    let check = check_anchors(&advertised_refs(&Vec::new()), &Vec::new(), Some(0), 14 * DAY);
    assert_eq!(check.status, WARN, "{}", check.summary);
    assert!(
        check.remedy.as_deref().unwrap().contains("git fetch"),
        "the remedy is to freshen: {:?}",
        check.remedy,
    );
    assert_eq!(
        check.summary,
        "the freshest advertised anchor is 14 day(s) old — a cold sync will delta against a stale base"
    );
}

#[test]
fn a_fresh_anchor_and_no_remotes_is_ok() {
    let advertised = advertised_refs(&Vec::new());
    let tips = vec![StreamTip {
        name: "refs/heads/main".to_string(),
        committed_unix_secs: 100 * DAY,
    }];
    let freshest = freshest_advertised_secs(&advertised, &tips);
    let check = check_anchors(&advertised, &Vec::new(), freshest, 100 * DAY + 5);
    assert_eq!(check.status, OK, "{}", check.summary);
    assert_eq!(
        check.summary,
        "advertising 2 pattern(s); freshest anchor 0 day(s) old"
    );
    assert!(matches!(
        detail(&check, "freshest_anchor_age_days"),
        Detail::Signed(0)
    ));
}

#[test]
fn an_anchor_is_not_stale_a_day_before() {
    let check = check_anchors(&Vec::new(), &Vec::new(), Some(0), 14 * DAY - 1);
    assert_eq!(check.status, OK);
    let none = check_anchors(&Vec::new(), &Vec::new(), None, 14 * DAY);
    assert_eq!(
        none.summary,
        "advertising 0 pattern(s); no anchor commits yet to judge freshness by"
    );
    assert!(matches!(
        detail(&none, "freshest_anchor_age_days"),
        Detail::Absent
    ));
    assert_eq!(age_in_days(10 * DAY, 3), 0);
}

#[test]
fn anchors_are_the_heads_of_remotes_or_conventional_branches() {
    let all = names(&["refs/remotes/a/main", "refs/remotes/a/master", "refs/remotes/b/master"]);
    assert_eq!(
        remote_anchor("a", Some("refs/remotes/a/trunk"), &all),
        Some("refs/remotes/a/trunk".to_string())
    );
    assert_eq!(
        remote_anchor("a", None, &all),
        Some("refs/remotes/a/main".to_string())
    );
    assert_eq!(
        remote_anchor("b", None, &all),
        Some("refs/remotes/b/master".to_string())
    );
    assert_eq!(
        advertised_refs(&names(&["refs/remotes/b/master"])),
        ["refs/git-full-send/", "refs/heads/", "refs/remotes/b/master"]
    );
}

#[test]
fn every_remote_gives_an_anchor_or_is_missing_one() {
    let all = names(&["refs/remotes/b/master", "refs/heads/x", "refs/remotes/a/trunk"]);
    let remotes = vec![
        ("a".to_string(), Some("refs/remotes/a/trunk".to_string())),
        ("none".to_string(), None),
        ("b".to_string(), None),
    ];
    let (anchors, missing) = anchors_of(&remotes, &all);
    assert_eq!(anchors, names(&["refs/remotes/a/trunk", "refs/remotes/b/master"]));
    assert_eq!(missing, names(&["none"]));
    assert_eq!(anchors_of(&Vec::new(), &all), (Vec::new(), Vec::new()));
}

#[test]
fn only_what_is_offered_as_an_anchor_is_looked_at() {
    let all = names(&[
        "refs/git-full-send/streams/a/code",
        "refs/heads/x",
        "refs/remotes/a/topic",
        "refs/remotes/a/trunk",
        "refs/tags/refs/heads/v1",
    ]);
    let advertised = advertised_refs(&names(&["refs/remotes/a/trunk"]));
    assert_eq!(
        anchor_names(&advertised, &all),
        names(&["refs/heads/x", "refs/remotes/a/trunk"])
    );
}

#[test]
fn synced_refs_are_no_anchors() {
    let tip = |name: &str, secs: i64| StreamTip {
        name: name.to_string(),
        committed_unix_secs: secs,
    };
    let tips = vec![
        tip("refs/git-full-send/streams/a/code", 900),
        tip("refs/heads/a", 10),
        tip("refs/heads/b", 30),
        tip("refs/remotes/o/main", 20),
        tip("refs/tags/v1", 800),
    ];
    let advertised = advertised_refs(&names(&["refs/remotes/o/main"]));
    assert_eq!(freshest_advertised_secs(&advertised, &tips), Some(30));
    assert_eq!(
        freshest_advertised_secs(&names(&["refs/remotes/o/main"]), &tips),
        Some(20)
    );
    assert_eq!(
        freshest_advertised_secs(&names(&["refs/git-full-send/"]), &tips),
        None
    );
}

#[test]
fn refs_are_counted_and_their_advertisement_estimated() {
    let check = check_refs(&names(&["refs/heads/main", "refs/git-full-send/streams/a/code"]));
    assert_eq!(check.status, OK);
    assert_eq!(
        check.summary,
        "2 ref(s) (1 git-full-send's) — about 140 B of ref advertisement on every connection"
    );
    assert_eq!(check.remedy, None);
    // 46 for each ref, and the names.
    assert!(matches!(
        detail(&check, "advertisement_bytes_estimate"),
        Detail::Count(140)
    ));
    assert!(matches!(detail(&check, "refs"), Detail::Count(2)));
    assert!(matches!(detail(&check, "refs_ours"), Detail::Count(1)));
}

#[test]
fn many_refs_are_worth_a_warning() {
    // A name of 54 bytes makes a line of 100.
    let name = format!("refs/heads/{}", "x".repeat(43));
    let many: Vec<String> = (0..2622).map(|_| name.clone()).collect();
    let check = check_refs(&many);
    assert_eq!(check.status, WARN);
    assert_eq!(
        check.remedy.as_deref(),
        Some(
            "`listen` collapses this advertisement to a curated anchor set by default (ADR-0020), \
             so git-full-send connections do not pay it unless `--no-hide-refs` is given — see \
             the `anchors` check for what gets advertised instead. For the cost every *other* git \
             client of this repo still pays, sync into a dedicated repository whose \
             objects/info/alternates points at this one's object store."
        )
    );
    let fewer: Vec<String> = (0..2621).map(|_| name.clone()).collect();
    assert_eq!(check_refs(&fewer).status, OK);
}

#[test]
fn unreadable_refs_are_an_error() {
    let check = refs_unreadable("corrupt");
    assert_eq!(check.status, ERROR);
    assert_eq!(check.summary, "could not enumerate refs: corrupt");
}

#[test]
fn packs_and_loose_objects_are_counted() {
    let bytes = |v: &[&str]| -> Vec<Vec<u8>> { v.iter().map(|s| s.as_bytes().to_vec()).collect() };
    let packs = bytes(&["pack-1.pack", "pack-1.idx", ".pack", "x.pack", "packs"]);
    let objects = bytes(&["00", "ff", "Ab", "info", "pack", "g0", "0", "000"]);
    let check = check_objects(&packs, &objects);
    assert_eq!(check.status, OK);
    assert_eq!(
        check.summary,
        "2 pack(s); loose objects in 3/256 fanout director(ies)"
    );
    let many: Vec<Vec<u8>> = (0..51).map(|i| format!("p{i}.pack").into_bytes()).collect();
    let check = check_objects(&many, &Vec::new());
    assert_eq!(check.status, WARN);
    assert!(check.remedy.unwrap().contains("more than 50 packs"));
    let fifty: Vec<Vec<u8>> = (0..50).map(|i| format!("p{i}.pack").into_bytes()).collect();
    assert_eq!(check_objects(&fifty, &Vec::new()).status, OK);
}

#[test]
fn autogc_is_only_worth_knowing() {
    for (configured, said) in [
        (Some(true), "is on in this repo"),
        (Some(false), "is off"),
        (None, "unset"),
    ] {
        let check = check_autogc(configured);
        assert_eq!(check.status, OK);
        assert!(check.summary.contains(said), "{}", check.summary);
    }
    assert!(matches!(
        detail(&check_autogc(Some(true)), "configured"),
        Detail::Flag(true)
    ));
}

#[test]
fn the_own_worktree_is_worth_a_warning() {
    let own = check_worktree(Some(b"/r"), Some(b"/r"), Some(2048));
    assert_eq!(own.status, WARN);
    assert_eq!(
        own.summary,
        "the target worktree is this repository's own working tree; per-worktree index present (2.0 KiB)"
    );
    assert_eq!(
        own.remedy.as_deref(),
        Some(
            "update-worktree is authoritative and destructive (ADR-0008): it stomps edits and \
             removes untracked non-ignored files in that tree. Check out into a dedicated, \
             disposable directory unless you mean this."
        )
    );
    let dedicated = check_worktree(Some(b"/w"), Some(b"/r"), None);
    assert_eq!(dedicated.status, OK);
    assert_eq!(
        dedicated.summary,
        "dedicated worktree directory; no per-worktree index yet (the first checkout will be a full one)"
    );
    assert_eq!(check_worktree(None, None, None).status, OK);
    assert!(matches!(
        detail(&dedicated, "index_bytes"),
        Detail::Absent
    ));
}

#[test]
fn unanchored_patterns_are_worth_a_warning() {
    let none: Result<Vec<String>, String> = Ok(Vec::new());
    let some: Result<Vec<String>, String> = Ok(names(&["*.wasm", "dist/"]));
    let broken: Result<Vec<String>, String> = Err("denied".to_string());
    assert_eq!(include_pattern_check(&none, &None).status, OK);
    let warned = include_pattern_check(&some, &None);
    assert_eq!(warned.status, WARN);
    assert_eq!(
        warned.summary,
        "2 unanchored force-include pattern(s): *.wasm, dist/"
    );
    // A repository without patterns of its own is judged by those of the worktree.
    assert_eq!(include_pattern_check(&none, &Some(some)).status, WARN);
    let both = include_pattern_check(&broken, &Some(none));
    assert_eq!(both.status, WARN);
    assert_eq!(
        both.summary,
        "could not read the force-include patterns: denied"
    );
}

#[test]
fn what_is_said_where_a_server_starts() {
    let quiet = startup_findings(&check_refs(&Vec::new()), &check_alternates(&Alternates::Missing, "/a"));
    assert!(!quiet.many_refs && !quiet.broken_alternates);
    let file = alternates("/gone\n", "/r", &[]);
    let loud = startup_findings(
        &Check::new("refs", WARN, "many", None),
        &check_alternates(&file, "/a"),
    );
    assert!(loud.many_refs && loud.broken_alternates);
}

#[test]
fn details_are_kept_in_the_order_of_their_names() {
    let check = Check::new("x", OK, "y", None)
        .with("b", Detail::Count(1))
        .with("a", Detail::Count(2))
        .with("c", Detail::Flag(true))
        .with("b", Detail::Count(3));
    let keys: Vec<&str> = (0..check.detail.len()).map(|i| check.detail.name_at(i)).collect();
    assert_eq!(keys, ["a", "b", "c"]);
    assert!(matches!(check.detail.value_at(1), Detail::Count(3)));
}

fn report() -> DoctorReport {
    let mut report = doctor(
        "/r".to_string(),
        Some("/w".to_string()),
        check_refs(&Vec::new()),
        Check::new("anchors", WARN, "stale", Some("fetch")),
        Check::new("alternates", ERROR, "gone", None),
        check_objects(&Vec::new(), &Vec::new()),
        check_autogc(Some(false)),
        Some(check_worktree(Some(b"/w"), None, None)),
    );
    report.push(Check::new("include_patterns", OK, "none", None));
    report
}

#[test]
fn a_report_counts_errors_and_warnings() {
    let report = report();
    assert_eq!(report.errors(), 1);
    assert_eq!(report.warnings(), 1);
    let order: Vec<&str> = report.checks.iter().map(|c| c.name.as_str()).collect();
    assert_eq!(
        order,
        [
            "refs",
            "anchors",
            "alternates",
            "objects",
            "receive_autogc",
            "worktree",
            "include_patterns"
        ]
    );
}

#[test]
fn a_report_is_printed() {
    let lines = doctor_lines(&report());
    assert_eq!(lines[0], "Checked /r");
    assert_eq!(lines[1], "  worktree /w");
    assert_eq!(lines[2], "");
    assert!(lines[3].starts_with("   ok  refs             0 ref(s) "));
    assert_eq!(lines[4], " WARN  anchors          stale");
    assert_eq!(lines[5], "       fetch");
    assert_eq!(lines[6], "ERROR  alternates       gone");
    assert_eq!(lines[lines.len() - 2], "");
    assert_eq!(lines[lines.len() - 1], "1 error(s), 1 warning(s).");
    let quiet = DoctorReport {
        repo: "/r".to_string(),
        worktree: None,
        checks: Vec::new(),
    };
    assert_eq!(
        doctor_lines(&quiet),
        ["Checked /r", "", "", "Nothing to report."]
    );
}
