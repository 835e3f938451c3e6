//! Selecting force-included files from trees in memory.

use std::collections::BTreeSet;

use git_full_send::patterns::{AllowList, Pattern};
use git_full_send::select::{
    build_prune_info, join_rel, load_search, prunable_prefix, unanchored_patterns,
    user_include_path, DirEntry, FileKind, PatternFile, PruneInfo, SelectError, Selection, Walk,
    PROJECT_INCLUDE_FILE, USER_INCLUDE_ENV,
};

/// A working tree: the paths of its files.
struct Tree {
    files: BTreeSet<String>,
    links: BTreeSet<String>,
    others: BTreeSet<String>,
}

impl Tree {
    fn of(files: &[&str]) -> Tree {
        Tree {
            files: files.iter().map(|f| f.to_string()).collect(),
            links: BTreeSet::new(),
            others: BTreeSet::new(),
        }
    }

    /// What a directory holds.
    fn list(&self, dir: &str) -> Vec<DirEntry> {
        let prefix = if dir.is_empty() {
            String::new()
        } else {
            format!("{dir}/")
        };
        let mut seen = BTreeSet::new();
        let mut out = Vec::new();
        for (paths, kind) in [
            (&self.files, FileKind::File),
            (&self.links, FileKind::Symlink),
            (&self.others, FileKind::Other),
        ] {
            for path in paths {
                let Some(rest) = path.strip_prefix(&prefix) else {
                    continue;
                };
                let (name, kind) = match rest.split_once('/') {
                    Some((name, _)) => (name, FileKind::Dir),
                    None => (rest, kind),
                };
                if seen.insert(name.to_string()) {
                    out.push(DirEntry {
                        name: name.as_bytes().to_vec(),
                        kind,
                    });
                }
            }
        }
        out
    }
}

fn file(source: &str, text: &str) -> PatternFile {
    PatternFile {
        source: source.to_string(),
        bytes: text.as_bytes().to_vec(),
    }
}

fn search(project: Option<&str>, user: Option<&str>) -> AllowList {
    load_search(
        &project.map(|t| file(PROJECT_INCLUDE_FILE, t)),
        &user.map(|t| file("/home/user/include", t)),
        &Vec::new(),
    )
}

/// Runs the walk, and returns the selection with the directories that it entered.
fn run(tree: &Tree, list: AllowList) -> (Selection, Vec<String>) {
    let mut walk = Walk::new(list);
    let mut entered = Vec::new();
    while let Some(dir) = walk.next() {
        let dir = String::from_utf8(dir).unwrap();
        let entries = tree.list(&dir);
        entered.push(dir);
        walk.visit(&entries);
    }
    (walk.finish(), entered)
}

fn paths(selection: &Selection) -> Vec<String> {
    selection
        .paths
        .iter()
        .map(|p| String::from_utf8(p.clone()).unwrap())
        .collect()
}

fn select(tree: &Tree, project: Option<&str>, user: Option<&str>) -> Vec<String> {
    paths(&run(tree, search(project, user)).0)
}

/// An anchored pattern prunes the unrelated tree, an unanchored one is forced to
/// walk all of it, and the counters make the difference legible.
#[test]
fn the_walk_reports_the_cost_of_unanchored_patterns() {
    let mut files = vec!["dist/app.js".to_string()];
    for i in 0..5 {
        files.push(format!("node_modules/pkg{i}/index.js"));
    }
    files.push(PROJECT_INCLUDE_FILE.to_string());
    let names: Vec<&str> = files.iter().map(|f| f.as_str()).collect();
    let tree = Tree::of(&names);

    // Anchored: `node_modules/` can't contain a match, so it is never entered.
    let (anchored, _) = run(&tree, search(Some("/dist/\n"), None));
    assert_eq!(anchored.paths.len(), 1);
    assert_eq!(anchored.stats.unanchored_patterns, 0);
    assert!(
        anchored.stats.dirs_pruned >= 1,
        "the unrelated tree was pruned: {:?}",
        anchored.stats,
    );

    // Unanchored: the same selection, reached the expensive way.
    let (unanchored, _) = run(&tree, search(Some("dist/\n"), None));
    assert_eq!(
        unanchored.paths, anchored.paths,
        "the prune never changes what is selected",
    );
    assert_eq!(unanchored.stats.unanchored_patterns, 1);
    assert_eq!(
        unanchored.stats.dirs_pruned, 0,
        "one unanchored pattern disables pruning entirely",
    );
    assert!(
        unanchored.stats.dirs_entered > anchored.stats.dirs_entered,
        "and the walk visits strictly more: {:?} vs {:?}",
        unanchored.stats,
        anchored.stats,
    );
    assert!(
        unanchored.stats.paths_considered > unanchored.paths.len(),
        "far more paths were considered than selected: {:?}",
        unanchored.stats,
    );
}

#[test]
fn the_counters_are_exact() {
    let tree = Tree::of(&["dist/app.js", "a/x", "b/c/y", PROJECT_INCLUDE_FILE]);
    let (anchored, entered) = run(&tree, search(Some("/dist/\n"), None));
    assert_eq!(entered, ["", "dist"]);
    assert_eq!(anchored.stats.dirs_entered, 2);
    assert_eq!(anchored.stats.dirs_pruned, 2);
    assert_eq!(anchored.stats.paths_considered, 5);
    let (all, entered) = run(&tree, search(Some("dist/\n"), None));
    assert_eq!(entered.len(), 5);
    assert_eq!(all.stats.dirs_entered, 5);
    assert_eq!(all.stats.dirs_pruned, 0);
    assert_eq!(all.stats.paths_considered, 8);
}

#[test]
fn no_patterns_selects_nothing() {
    let tree = Tree::of(&["dist/app.js", "src/main.rs"]);
    assert!(select(&tree, None, None).is_empty());
}

#[test]
fn directory_pattern_pulls_the_whole_subtree() {
    let tree = Tree::of(&[
        PROJECT_INCLUDE_FILE,
        "dist/app.js",
        "dist/nested/app.wasm",
        "src/main.rs",
    ]);
    assert_eq!(
        select(&tree, Some("dist/\n"), None),
        ["dist/app.js", "dist/nested/app.wasm"],
    );
}

#[test]
fn bang_carves_a_file_back_out_of_an_included_directory() {
    let tree = Tree::of(&[PROJECT_INCLUDE_FILE, "dist/app.js", "dist/secret.txt"]);
    assert_eq!(
        select(&tree, Some("dist/\n!dist/secret.txt\n"), None),
        ["dist/app.js"]
    );
}

#[test]
fn deeply_anchored_pattern_descends_unmatched_parents() {
    // `target/` is never matched as a whole, yet we descend into it to reach the
    // one anchored file.
    let tree = Tree::of(&[
        PROJECT_INCLUDE_FILE,
        "target/release/app",
        "target/release/app.d",
        "target/debug/app",
    ]);
    assert_eq!(
        select(&tree, Some("target/release/app\n"), None),
        ["target/release/app"]
    );
}

#[test]
fn user_layer_carves_out_a_project_include() {
    let tree = Tree::of(&[PROJECT_INCLUDE_FILE, "dist/app.js", "dist/private.txt"]);
    assert_eq!(
        select(&tree, Some("dist/\n"), Some("!dist/private.txt\n")),
        ["dist/app.js"]
    );
}

#[test]
fn user_layer_adds_its_own_include() {
    let tree = Tree::of(&[
        PROJECT_INCLUDE_FILE,
        "dist/app.js",
        "config/local.toml",
        "config/other.toml",
    ]);
    assert_eq!(
        select(&tree, Some("dist/\n"), Some("config/local.toml\n")),
        ["config/local.toml", "dist/app.js"],
    );
}

/// Further files are layered behind the user's, and the last match wins.
#[test]
fn further_layers_win_over_the_user_layer() {
    let tree = Tree::of(&["dist/app.js", "dist/private.txt", "out/x"]);
    let list = load_search(
        &Some(file(PROJECT_INCLUDE_FILE, "dist/\n")),
        &Some(file("/home/user/include", "!dist/private.txt\n")),
        &vec![
            file("/one", "dist/private.txt\nout/\n"),
            file("/two", "!out/\n"),
        ],
    );
    assert_eq!(
        paths(&run(&tree, list).0),
        ["dist/app.js", "dist/private.txt"]
    );
}

#[test]
fn anchored_pattern_does_not_descend_unrelated_tree() {
    let tree = Tree::of(&[
        PROJECT_INCLUDE_FILE,
        "web-client/dist/app.js",
        "node_modules/pkg/index.js",
        "node_modules/pkg/deep/more.js",
    ]);
    let (selection, entered) = run(&tree, search(Some("web-client/dist/\n"), None));
    assert_eq!(paths(&selection), ["web-client/dist/app.js"]);
    // The prune skipped `node_modules` entirely: its contents were never read.
    assert!(
        !entered
            .iter()
            .any(|d| d == "node_modules" || d.starts_with("node_modules/")),
        "walk descended into node_modules: {entered:?}",
    );
    // It did descend toward the anchored match.
    assert!(entered.iter().any(|d| d == "web-client/dist"));
}

#[test]
fn unanchored_pattern_still_matches_anywhere() {
    let tree = Tree::of(&[
        PROJECT_INCLUDE_FILE,
        "node_modules/pkg/thing.wasm",
        "src/main.rs",
    ]);
    let (selection, entered) = run(&tree, search(Some("*.wasm\n"), None));
    assert_eq!(paths(&selection), ["node_modules/pkg/thing.wasm"]);
    assert!(entered.iter().any(|d| d == "node_modules/pkg"));
}

/// The first pattern of a layer with this text.
fn with_pattern<T>(text: &str, f: impl Fn(&Pattern) -> T) -> T {
    let mut list = AllowList::new();
    list.add_layer("a file", text.as_bytes());
    f(&list.layers()[0].patterns[0])
}

#[test]
fn prunable_prefix_classifies_anchoring() {
    fn prefix(pattern: &str) -> Option<Vec<String>> {
        with_pattern(pattern, |parsed| {
            prunable_prefix(parsed).map(|segments| {
                segments
                    .iter()
                    .map(|s| String::from_utf8(s.clone()).unwrap())
                    .collect()
            })
        })
    }
    let segs = |s: &[&str]| Some(s.iter().map(ToString::to_string).collect::<Vec<_>>());

    // Anchored: a leading or an interior `/` gives a literal directory prefix.
    assert_eq!(prefix("web-client/dist/"), segs(&["web-client", "dist"]));
    assert_eq!(prefix("target/release/**"), segs(&["target", "release"]));
    assert_eq!(prefix("/dist/"), segs(&["dist"]));
    assert_eq!(prefix("/a/b/c"), segs(&["a", "b", "c"]));
    // Unanchored: bare basename, basename-dir, or a leading/partial wildcard.
    assert_eq!(prefix("dist/"), None);
    assert_eq!(prefix("*.wasm"), None);
    assert_eq!(prefix("**/foo"), None);
    assert_eq!(prefix("dist*/app"), None);
    assert_eq!(prefix("foo"), None);
    // Root-anchored-only patterns are treated as a full walk.
    assert_eq!(prefix("/*.wasm"), None);
}

#[test]
fn can_contain_match_compatibility() {
    let prune = PruneInfo {
        any_unanchored: false,
        unanchored_count: 0,
        prefixes: vec![vec![b"web-client".to_vec(), b"dist".to_vec()]],
    };
    let can = |s: &str| prune.can_contain_match(s.as_bytes());
    assert!(can("web-client")); // ancestor of the prefix
    assert!(can("web-client/dist")); // equals the prefix
    assert!(can("web-client/dist/sub")); // under the prefix
    assert!(!can("node_modules")); // unrelated
    assert!(!can("web-client/other")); // diverges below the first segment

    // An unanchored set short-circuits to always-descend.
    let exhaustive = PruneInfo {
        any_unanchored: true,
        unanchored_count: 1,
        prefixes: vec![],
    };
    assert!(exhaustive.can_contain_match(b"anything/at/all"));
}

#[test]
fn build_prune_info_flags_unanchored_and_ignores_negatives() {
    // One anchored positive, one unanchored positive, one negative carve-out.
    let list = search(
        Some("web-client/dist/\n*.wasm\n!web-client/dist/secret\n"),
        None,
    );
    let prune = build_prune_info(&list);
    assert!(
        prune.any_unanchored,
        "`*.wasm` should mark the set unanchored"
    );
    // Only the anchored positive contributes a prefix.
    assert_eq!(prune.prefixes.len(), 1);
    assert_eq!(prune.prefixes[0], [b"web-client".to_vec(), b"dist".to_vec()]);
    assert_eq!(prune.unanchored_count, 1);
}

#[test]
fn dot_git_is_never_descended() {
    let tree = Tree::of(&[PROJECT_INCLUDE_FILE, ".git/config", "keep.txt", "a/.git/x"]);
    let got = select(&tree, Some("*\n"), None);
    assert!(got.contains(&"keep.txt".to_string()));
    assert!(!got.iter().any(|p| p.starts_with(".git/")), "got {got:?}",);
    assert!(!got.contains(&"a/.git/x".to_string()));
}

/// Pruning never changes the selected set, over trees and pattern sets that span
/// every kind of anchoring. A pattern that matches nothing but is unanchored makes
/// the other walk enter every directory.
#[test]
fn prune_never_changes_selection() {
    let dirs = ["", "a/", "b/", "dist/", "sub/", "a/b/", "a/dist/", "dist/sub/", "a/b/sub/"];
    let names = ["app", "x.wasm", "y.txt", "app.js"];
    let patterns = [
        "a/dist/", "a/b/app", "a/dist/**", "/dist/", "/a/b", "a/*/y.txt", "dist/", "app",
        "*.wasm", "sub/", "**/app",
    ];
    let mut all = Vec::new();
    for dir in dirs {
        for name in names {
            all.push(format!("{dir}{name}"));
        }
    }
    let paths_of: Vec<&str> = all.iter().map(|p| p.as_str()).collect();
    let tree = Tree::of(&paths_of);
    let mut lines: Vec<String> = Vec::new();
    for pattern in patterns {
        lines.push(pattern.to_string());
        lines.push(format!("!{pattern}"));
    }
    for one in &lines {
        for two in &lines {
            let text = format!("{one}\n{two}\n");
            let (pruned, entered) = run(&tree, search(Some(&text), None));
            let exhaustive = format!("never-there\n{text}");
            let (whole, everywhere) = run(&tree, search(Some(&exhaustive), None));
            assert_eq!(paths(&pruned), paths(&whole), "{text}");
            assert_eq!(everywhere.len(), 9);
            for dir in &entered {
                assert!(everywhere.contains(dir), "{dir} under {text}");
            }
        }
    }
}

#[test]
fn links_are_selected_and_other_things_are_not() {
    let mut tree = Tree::of(&["dist/app.js"]);
    tree.links.insert("dist/link".to_string());
    tree.others.insert("dist/socket".to_string());
    assert_eq!(
        select(&tree, Some("dist/\n"), None),
        ["dist/app.js", "dist/link"]
    );
}

#[test]
fn comments_and_blank_lines_are_no_patterns() {
    let tree = Tree::of(&["a", "b"]);
    assert_eq!(select(&tree, Some("# a\n\n  \nb\n"), None), ["b"]);
    assert_eq!(select(&tree, Some("\\#x\na\n"), None), ["a"]);
}

/// The verdict on a path is that of the last pattern that matches it.
#[test]
fn the_last_match_decides() {
    let mut list = AllowList::new();
    list.add_layer("one", b"*.txt\n!b.txt\n");
    list.add_layer("two", b"b.txt\n!c.*\n");
    assert_eq!(list.classify(b"a.txt", false), Some(true));
    assert_eq!(list.classify(b"b.txt", false), Some(true));
    assert_eq!(list.classify(b"c.txt", false), Some(false));
    assert_eq!(list.classify(b"d.js", false), None);
    assert_eq!(list.layers().len(), 2);
    assert_eq!(list.layers()[1].source, "two");
}

#[test]
fn a_pattern_for_directories_matches_no_file() {
    let mut list = AllowList::new();
    list.add_layer("one", b"dist/\n");
    assert_eq!(list.classify(b"dist", true), Some(true));
    assert_eq!(list.classify(b"dist", false), None);
}

#[test]
fn unanchored_patterns_are_named_once_with_their_file() {
    let list = search(Some("*.wasm\n/dist/\n!app\nfoo\n"), Some("*.wasm\nbar/\n"));
    let found: Vec<(String, String)> = unanchored_patterns(&list)
        .into_iter()
        .map(|u| (u.pattern, u.source))
        .collect();
    assert_eq!(
        found,
        [
            ("*.wasm".to_string(), PROJECT_INCLUDE_FILE.to_string()),
            ("foo".to_string(), PROJECT_INCLUDE_FILE.to_string()),
            ("bar/".to_string(), "/home/user/include".to_string()),
        ]
    );
}

#[test]
fn the_user_file_is_looked_up_in_order() {
    assert_eq!(USER_INCLUDE_ENV, "GIT_FULL_SEND_USER_INCLUDE");
    assert_eq!(PROJECT_INCLUDE_FILE, ".git-full-send-include");
    let some = |s: &str| Some(s.as_bytes().to_vec());
    assert_eq!(
        user_include_path(some("/named"), some("/xdg"), some("/home/u")),
        some("/named")
    );
    assert_eq!(
        user_include_path(None, some("/xdg"), some("/home/u")),
        some("/xdg/git-full-send/include")
    );
    assert_eq!(
        user_include_path(None, None, some("/home/u")),
        some("/home/u/.config/git-full-send/include")
    );
    assert_eq!(user_include_path(None, None, None), None);
}

#[test]
fn paths_are_joined_by_slashes() {
    assert_eq!(join_rel(b"", b"a"), b"a");
    assert_eq!(join_rel(b"a/b", b"c"), b"a/b/c");
}

#[test]
fn messages_of_select_errors() {
    let read = SelectError::ReadPatternFile {
        path: "/p".to_string(),
        source: "gone".to_string(),
    };
    assert_eq!(read.message(), "could not read include pattern file `/p`");
    let dir = SelectError::ReadDir {
        path: "/d".to_string(),
        source: "gone".to_string(),
    };
    assert!(dir.message().contains("`/d`"), "{}", dir.message());
}

/// Ignored build outputs are selected, independent of what git ignores; the
/// carve-out and unmatched files are not.
#[test]
fn selects_gitignored_build_outputs_with_a_carve_out() {
    let tree = Tree::of(&[
        ".gitignore",
        ".git-full-send-include",
        "dist/app.js",
        "dist/nested/app.wasm",
        "dist/secret.txt",
        "src/main.rs",
    ]);
    assert_eq!(
        select(&tree, Some("dist/\n!dist/secret.txt\n"), None),
        ["dist/app.js", "dist/nested/app.wasm"],
    );
}
