//! Selecting the force-included files, which git normally ignores.
//!
//! The patterns of an allow-list are matched with the working tree itself. The
//! walk carries a state from a directory to what is in it, included or not,
//! that starts as not included. A directory takes the verdict of the patterns
//! on it, or else the state of the directory that holds it. A file or a symbolic
//! link is selected by the verdict on it, or else by that state.
//!
//! A directory is skipped where nothing in it can be selected: it is not
//! included, and every pattern that includes starts with a literal path that
//! leads elsewhere. A pattern that can match at any depth allows no skipping.

use vstd::prelude::*;
use vstd::slice::slice_subrange;
use vstd::utf8::encode_utf8;

use crate::bytes::{
    ascending, copy_bytes, join_path, joined, rows, same_bytes, sorted_rows, split_bytes,
};
use crate::patterns::{
    all_well_parsed, decides, flat, head_fits, law_the_last_match_wins, lemma_a_match_decides,
    lemma_verdict_has_a_pattern, matches_basename, parsed_patterns, pattern_matches,
    pattern_views, verdict, well_parsed, AllowList, LayerView, Pattern, PatternView,
};
use crate::text::{next_index, pieces, same_text};

verus! {

/// The committed pattern file, looked for at the root of the repository.
pub const PROJECT_INCLUDE_FILE: &'static str = ".git-full-send-include";

/// Environment variable that names the pattern file of the user.
pub const USER_INCLUDE_ENV: &'static str = "GIT_FULL_SEND_USER_INCLUDE";

/// The reason that selecting failed.
#[derive(Debug)]
pub enum SelectError {
    /// A pattern file could not be read. That it does not exist is no error.
    ReadPatternFile {
        /// The file.
        path: String,
        /// What the attempt said.
        source: String,
    },
    /// A directory of the working tree could not be listed.
    ReadDir {
        /// The directory.
        path: String,
        /// What the attempt said.
        source: String,
    },
    /// An entry of the working tree could not be inspected.
    Metadata {
        /// The entry.
        path: String,
        /// What the attempt said.
        source: String,
    },
    /// A path of the working tree cannot be a git path.
    NonUnicodePath(String),
}

impl SelectError {
    /// The text of [`SelectError::message`].
    pub open spec fn text(self) -> Seq<char> {
        match self {
            SelectError::ReadPatternFile { path, .. } => "could not read include pattern file `"@
                + path@ + "`"@,
            SelectError::ReadDir { path, .. } => "could not read worktree directory `"@ + path@
                + "`"@,
            SelectError::Metadata { path, .. } => "could not inspect worktree entry `"@ + path@
                + "`"@,
            SelectError::NonUnicodePath(path) => "worktree path `"@ + path@
                + "` is not representable as a Git path"@,
        }
    }

    /// What the error says.
    pub fn message(&self) -> (r: String)
        ensures
            r@ == self.text(),
    {
        match self {
            SelectError::ReadPatternFile { path, .. } => crate::text::concat3(
                "could not read include pattern file `",
                path.as_str(),
                "`",
            ),
            SelectError::ReadDir { path, .. } => crate::text::concat3(
                "could not read worktree directory `",
                path.as_str(),
                "`",
            ),
            SelectError::Metadata { path, .. } => crate::text::concat3(
                "could not inspect worktree entry `",
                path.as_str(),
                "`",
            ),
            SelectError::NonUnicodePath(path) => crate::text::concat3(
                "worktree path `",
                path.as_str(),
                "` is not representable as a Git path",
            ),
        }
    }
}

/// What the walk cost.
#[derive(Debug, Clone, Copy, PartialEq, Eq, Structural)]
pub struct SelectStats {
    /// Directories that the walk descended into, with the root.
    pub dirs_entered: usize,
    /// Directories skipped because nothing in them can be selected. Zero
    /// whenever `unanchored_patterns` is not.
    pub dirs_pruned: usize,
    /// Entries of any kind that the walk looked at.
    pub paths_considered: usize,
    /// Patterns that match at any depth and so force the walk to go everywhere.
    pub unanchored_patterns: usize,
}

impl Default for SelectStats {
    fn default() -> (r: Self)
        ensures
            r.dirs_entered == 0,
            r.dirs_pruned == 0,
            r.paths_considered == 0,
            r.unanchored_patterns == 0,
    {
        SelectStats {
            dirs_entered: 0,
            dirs_pruned: 0,
            paths_considered: 0,
            unanchored_patterns: 0,
        }
    }
}

/// The selected paths, and what finding them cost.
#[derive(Debug)]
pub struct Selection {
    /// The paths, relative to the root, in order and each once.
    pub paths: Vec<Vec<u8>>,
    /// What the walk cost.
    pub stats: SelectStats,
}

/// The path of the user's pattern file: what [`USER_INCLUDE_ENV`] holds, else
/// `git-full-send/include` in the directory that `XDG_CONFIG_HOME` names, else
/// in `.config` in the directory that `HOME` names. An empty value of the first
/// two counts as none.
pub open spec fn user_include_of(
    named: Option<Seq<u8>>,
    xdg: Option<Seq<u8>>,
    home: Option<Seq<u8>>,
) -> Option<Seq<u8>> {
    if named is Some && named->0.len() > 0 {
        named
    } else if xdg is Some && xdg->0.len() > 0 {
        Some(joined(joined(xdg->0, encode_utf8("git-full-send"@)), encode_utf8("include"@)))
    } else if home is Some {
        Some(
            joined(
                joined(
                    joined(home->0, encode_utf8(".config"@)),
                    encode_utf8("git-full-send"@),
                ),
                encode_utf8("include"@),
            ),
        )
    } else {
        None
    }
}

/// The bytes of an optional path.
pub open spec fn opt_bytes(v: Option<Vec<u8>>) -> Option<Seq<u8>> {
    match v {
        Some(bytes) => Some(bytes@),
        None => None,
    }
}

/// The path of the user's pattern file, from the values of
/// [`USER_INCLUDE_ENV`], `XDG_CONFIG_HOME` and `HOME`, or `None` where nothing
/// says where it is. The file may not exist.
pub fn user_include_path(
    named: Option<Vec<u8>>,
    xdg: Option<Vec<u8>>,
    home: Option<Vec<u8>>,
) -> (r: Option<Vec<u8>>)
    ensures
        opt_bytes(r) == user_include_of(opt_bytes(named), opt_bytes(xdg), opt_bytes(home)),
{
    if let Some(path) = named {
        if path.len() > 0 {
            return Some(path);
        }
    }
    if let Some(base) = xdg {
        if base.len() > 0 {
            let dir = join_path(base.as_slice(), "git-full-send".as_bytes());
            return Some(join_path(dir.as_slice(), "include".as_bytes()));
        }
    }
    match home {
        Some(home) => {
            let base = join_path(home.as_slice(), ".config".as_bytes());
            let dir = join_path(base.as_slice(), "git-full-send".as_bytes());
            Some(join_path(dir.as_slice(), "include".as_bytes()))
        },
        None => None,
    }
}

/// A pattern file that exists.
#[derive(Debug)]
pub struct PatternFile {
    /// The file, as it is shown.
    pub source: String,
    /// What it holds.
    pub bytes: Vec<u8>,
}

/// The layer that a pattern file gives.
pub open spec fn layer_of(file: PatternFile) -> LayerView {
    LayerView { source: file.source@, patterns: parsed_patterns(file.bytes@) }
}

/// The layers of an allow-list: that of the project's file, that of the user's
/// file and those of further files, of which a later one wins over an earlier
/// one.
pub open spec fn layers_of(
    project: Option<PatternFile>,
    user: Option<PatternFile>,
    further: Seq<PatternFile>,
) -> Seq<LayerView> {
    let first = match project {
        Some(file) => seq![layer_of(file)],
        None => Seq::empty(),
    };
    let second = match user {
        Some(file) => seq![layer_of(file)],
        None => Seq::empty(),
    };
    first + second + Seq::new(further.len(), |i: int| layer_of(further[i]))
}

/// Builds the allow-list of the pattern files that exist.
pub fn load_search(
    project: &Option<PatternFile>,
    user: &Option<PatternFile>,
    further: &Vec<PatternFile>,
) -> (r: AllowList)
    ensures
        r@ == layers_of(*project, *user, further@),
{
    let mut list = AllowList::new();
    if let Some(file) = project {
        list.add_layer(file.source.as_str(), file.bytes.as_slice());
    }
    if let Some(file) = user {
        list.add_layer(file.source.as_str(), file.bytes.as_slice());
    }
    let ghost first = list@;
    let mut i: usize = 0;
    while i < further.len()
        invariant
            i <= further@.len(),
            list@ == first + Seq::new(i as nat, |k: int| layer_of(further@[k])),
        decreases further@.len() - i,
    {
        list.add_layer(further[i].source.as_str(), further[i].bytes.as_slice());
        proof {
            assert(first + Seq::new((i + 1) as nat, |k: int| layer_of(further@[k])) =~= (first
                + Seq::new(i as nat, |k: int| layer_of(further@[k]))).push(
                layer_of(further@[i as int]),
            ));
        }
        i += 1;
    }
    proof {
        assert(list@ =~= layers_of(*project, *user, further@));
    }
    list
}

/// The index of the last `b` in `s`, or -1.
pub open spec fn last_index(s: Seq<u8>, b: u8) -> int
    decreases s.len(),
{
    if s.len() == 0 {
        -1
    } else if s.last() == b {
        s.len() - 1
    } else {
        last_index(s.drop_last(), b)
    }
}

/// The literal text of whole segments that a pattern starts with: all of it, or
/// what stands before the last slash before its first wildcard.
pub open spec fn literal_head(p: PatternView) -> Seq<u8> {
    match p.first_wildcard {
        Some(pos) => {
            let slash = last_index(p.text.take(pos as int), 47);
            if slash < 0 {
                Seq::empty()
            } else {
                p.text.take(slash)
            }
        },
        None => p.text,
    }
}

/// The pieces that are not empty.
pub open spec fn nonempty(v: Seq<Seq<u8>>) -> Seq<Seq<u8>>
    decreases v.len(),
{
    if v.len() == 0 {
        Seq::empty()
    } else if v.last().len() == 0 {
        nonempty(v.drop_last())
    } else {
        nonempty(v.drop_last()).push(v.last())
    }
}

/// The segments that whatever a pattern matches starts with, or `None` where
/// the pattern is unanchored: it matches at any depth.
pub open spec fn prefix_of(p: PatternView) -> Option<Seq<Seq<u8>>> {
    if matches_basename(p) {
        None
    } else {
        let segments = nonempty(pieces(literal_head(p), 47u8));
        if segments.len() == 0 {
            None
        } else {
            Some(segments)
        }
    }
}

/// The index of the last `b` in `bytes`, if there is one.
fn last_index_of(bytes: &[u8], b: u8) -> (r: Option<usize>)
    ensures
        match r {
            Some(i) => i == last_index(bytes@, b) && i < bytes@.len(),
            None => last_index(bytes@, b) == -1,
        },
{
    let mut i: usize = bytes.len();
    proof {
        assert(bytes@.take(bytes@.len() as int) =~= bytes@);
    }
    while i > 0
        invariant
            i <= bytes@.len(),
            last_index(bytes@.take(i as int), b) == last_index(bytes@, b),
        decreases i,
    {
        proof {
            assert(bytes@.take(i as int).drop_last() =~= bytes@.take(i - 1));
            assert(bytes@.take(i as int).last() == bytes@[i - 1]);
        }
        if bytes[i - 1] == b {
            return Some(i - 1);
        }
        i -= 1;
    }
    None
}

/// The segments of `v` that are not empty.
fn nonempty_rows(v: &Vec<Vec<u8>>) -> (r: Vec<Vec<u8>>)
    ensures
        rows(r@) == nonempty(rows(v@)),
{
    let mut out: Vec<Vec<u8>> = Vec::new();
    let mut i: usize = 0;
    proof {
        assert(rows(v@).take(0) =~= Seq::<Seq<u8>>::empty());
        assert(rows(out@) =~= Seq::<Seq<u8>>::empty());
    }
    while i < v.len()
        invariant
            i <= v@.len(),
            rows(out@) == nonempty(rows(v@).take(i as int)),
        decreases v@.len() - i,
    {
        let ghost was = out@;
        proof {
            let next = rows(v@).take(i + 1);
            assert(next.drop_last() =~= rows(v@).take(i as int));
            assert(next.last() == v@[i as int]@);
        }
        if v[i].len() > 0 {
            let row = copy_bytes(v[i].as_slice());
            proof {
                assert(rows(was.push(row)) =~= rows(was).push(row@));
            }
            out.push(row);
        }
        i += 1;
    }
    proof {
        assert(rows(v@).take(v@.len() as int) =~= rows(v@));
    }
    out
}

/// The literal directories that whatever `pattern` matches lies in, as
/// segments, or `None` where it is unanchored.
///
/// A pattern is unanchored when there is no slash at its front and none within
/// it, or when a wildcard stands in its first segment.
pub fn prunable_prefix(pattern: &Pattern) -> (r: Option<Vec<Vec<u8>>>)
    requires
        pattern.first_wildcard matches Some(pos) ==> pos <= pattern.text@.len(),
    ensures
        match r {
            Some(segments) => prefix_of(pattern@) == Some(rows(segments@)),
            None => prefix_of(pattern@) is None,
        },
{
    if pattern.no_sub_dir && !pattern.absolute {
        return None;
    }
    let text = pattern.text.as_slice();
    let literal = match pattern.first_wildcard {
        Some(pos) => {
            let head = slice_subrange(text, 0, pos);
            assert(head@ =~= text@.take(pos as int));
            match last_index_of(head, 47) {
                Some(slash) => slice_subrange(text, 0, slash),
                None => slice_subrange(text, 0, 0),
            }
        },
        None => text,
    };
    proof {
        assert(literal@ =~= literal_head(pattern@));
    }
    let segments = nonempty_rows(&split_bytes(literal, 47));
    if segments.len() == 0 {
        None
    } else {
        Some(segments)
    }
}

/// Whether a pattern includes and matches at any depth.
pub open spec fn is_unanchored(p: PatternView) -> bool {
    !p.negative && prefix_of(p) is None
}

/// The prefixes of the anchored patterns that include, in order.
pub open spec fn prefixes_of(ps: Seq<PatternView>) -> Seq<Seq<Seq<u8>>>
    decreases ps.len(),
{
    if ps.len() == 0 {
        Seq::empty()
    } else if !ps.last().negative && prefix_of(ps.last()) is Some {
        prefixes_of(ps.drop_last()).push(prefix_of(ps.last())->0)
    } else {
        prefixes_of(ps.drop_last())
    }
}

/// Whether a list of patterns, each with the file that it is from, names
/// `pattern`.
pub open spec fn names_pattern(v: Seq<(Seq<char>, Seq<char>)>, pattern: Seq<char>) -> bool {
    exists|i: int| 0 <= i < v.len() && (#[trigger] v[i]).0 == pattern
}

/// `found` and the unanchored patterns of one layer that it does not name yet.
pub open spec fn unanchored_in(
    found: Seq<(Seq<char>, Seq<char>)>,
    source: Seq<char>,
    ps: Seq<PatternView>,
) -> Seq<(Seq<char>, Seq<char>)>
    decreases ps.len(),
{
    if ps.len() == 0 {
        found
    } else {
        let so_far = unanchored_in(found, source, ps.drop_last());
        if is_unanchored(ps.last()) && !names_pattern(so_far, ps.last().display) {
            so_far.push((ps.last().display, source))
        } else {
            so_far
        }
    }
}

/// The unanchored patterns that include, each once, with the file that first
/// has it.
pub open spec fn unanchored_of(layers: Seq<LayerView>) -> Seq<(Seq<char>, Seq<char>)>
    decreases layers.len(),
{
    if layers.len() == 0 {
        Seq::empty()
    } else {
        unanchored_in(
            unanchored_of(layers.drop_last()),
            layers.last().source,
            layers.last().patterns,
        )
    }
}

/// A pattern that forces the walk to go everywhere.
#[derive(Debug)]
pub struct UnanchoredPattern {
    /// The pattern, as it is shown.
    pub pattern: String,
    /// The file that it is from.
    pub source: String,
}

/// The pairs of pattern and file that a list holds.
pub open spec fn unanchored_pairs(v: Seq<UnanchoredPattern>) -> Seq<(Seq<char>, Seq<char>)> {
    Seq::new(v.len(), |i: int| (v[i].pattern@, v[i].source@))
}

fn is_named(v: &Vec<UnanchoredPattern>, pattern: &str) -> (r: bool)
    ensures
        r == names_pattern(unanchored_pairs(v@), pattern@),
{
    let mut i: usize = 0;
    while i < v.len()
        invariant
            i <= v@.len(),
            forall|k: int| 0 <= k < i ==> (#[trigger] unanchored_pairs(v@)[k]).0 != pattern@,
        decreases v@.len() - i,
    {
        if same_text(v[i].pattern.as_str(), pattern) {
            assert(unanchored_pairs(v@)[i as int].0 == pattern@);
            return true;
        }
        i += 1;
    }
    false
}

proof fn lemma_flat_push(layers: Seq<LayerView>, i: int)
    requires
        0 <= i < layers.len(),
    ensures
        flat(layers.take(i + 1)) == flat(layers.take(i)) + layers[i].patterns,
        unanchored_of(layers.take(i + 1)) == unanchored_in(
            unanchored_of(layers.take(i)),
            layers[i].source,
            layers[i].patterns,
        ),
{
    let next = layers.take(i + 1);
    assert(next.drop_last() =~= layers.take(i));
    assert(next.last() == layers[i]);
}

/// That every pattern of some layer is well parsed, from that all are.
proof fn lemma_layer_well_parsed(layers: Seq<LayerView>, i: int, j: int)
    requires
        all_well_parsed(flat(layers)),
        0 <= i < layers.len(),
        0 <= j < layers[i].patterns.len(),
    ensures
        well_parsed(layers[i].patterns[j]),
    decreases layers.len(),
{
    let front = flat(layers.drop_last());
    if i == layers.len() - 1 {
        assert(flat(layers)[front.len() + j] == layers[i].patterns[j]);
    } else {
        assert forall|k: int| 0 <= k < front.len() implies well_parsed(#[trigger] front[k]) by {
            assert(flat(layers)[k] == front[k]);
        }
        lemma_layer_well_parsed(layers.drop_last(), i, j);
    }
}

/// The patterns of `list` that include and are unanchored, each once, with the
/// file that first has it.
///
/// Each of them makes a sync look at the whole working tree.
pub fn unanchored_patterns(list: &AllowList) -> (r: Vec<UnanchoredPattern>)
    ensures
        unanchored_pairs(r@) == unanchored_of(list@),
{
    let layers = list.layers();
    let ghost views = list@;
    let mut out: Vec<UnanchoredPattern> = Vec::new();
    let mut i: usize = 0;
    proof {
        assert(views.take(0) =~= Seq::<LayerView>::empty());
        assert(unanchored_pairs(out@) =~= Seq::<(Seq<char>, Seq<char>)>::empty());
    }
    while i < layers.len()
        invariant
            i <= layers@.len(),
            layers@.len() == views.len(),
            forall|k: int| 0 <= k < layers@.len() ==> (#[trigger] layers@[k])@ == views[k],
            all_well_parsed(flat(views)),
            unanchored_pairs(out@) == unanchored_of(views.take(i as int)),
        decreases layers@.len() - i,
    {
        let patterns = &layers[i].patterns;
        let ghost ps = pattern_views(patterns@);
        let ghost before = unanchored_of(views.take(i as int));
        let ghost source = layers@[i as int].source@;
        let mut j: usize = 0;
        proof {
            assert(layers@[i as int]@ == views[i as int]);
            assert(ps.take(0) =~= Seq::<PatternView>::empty());
        }
        while j < patterns.len()
            invariant
                i < layers@.len(),
                j <= patterns@.len(),
                layers@.len() == views.len(),
                patterns@ == layers@[i as int].patterns@,
                ps == pattern_views(patterns@),
                source == layers@[i as int].source@,
                layers@[i as int]@ == views[i as int],
                all_well_parsed(flat(views)),
                unanchored_pairs(out@) == unanchored_in(before, source, ps.take(j as int)),
            decreases patterns@.len() - j,
        {
            let pattern = &patterns[j];
            proof {
                lemma_layer_well_parsed(views, i as int, j as int);
                assert(views[i as int].patterns[j as int] == pattern@);
                let next = ps.take(j + 1);
                assert(next.drop_last() =~= ps.take(j as int));
                assert(next.last() == pattern@);
            }
            if !pattern.negative && prunable_prefix(pattern).is_none() {
                if !is_named(&out, pattern.display.as_str()) {
                    let ghost was = out@;
                    let found = UnanchoredPattern {
                        pattern: pattern.display.clone(),
                        source: layers[i].source.clone(),
                    };
                    proof {
                        assert(unanchored_pairs(was.push(found)) =~= unanchored_pairs(was).push(
                            (found.pattern@, found.source@),
                        ));
                    }
                    out.push(found);
                }
            }
            j += 1;
        }
        proof {
            assert(ps.take(ps.len() as int) =~= ps);
            lemma_flat_push(views, i as int);
        }
        i += 1;
    }
    proof {
        assert(views.take(views.len() as int) =~= views);
    }
    out
}

/// Which directories the walk may skip.
#[derive(Debug)]
pub struct PruneInfo {
    /// Whether some pattern that includes is unanchored, so that no directory
    /// can be skipped.
    pub any_unanchored: bool,
    /// How many patterns that include are unanchored.
    pub unanchored_count: usize,
    /// The prefixes of the anchored patterns that include, as segments.
    pub prefixes: Vec<Vec<Vec<u8>>>,
}

/// What decides whether a directory may be skipped.
pub struct Prune {
    pub any_unanchored: bool,
    pub prefixes: Seq<Seq<Seq<u8>>>,
}

impl View for PruneInfo {
    type V = Prune;

    open spec fn view(&self) -> Prune {
        Prune {
            any_unanchored: self.any_unanchored,
            prefixes: Seq::new(self.prefixes@.len(), |i: int| rows(self.prefixes@[i]@)),
        }
    }
}

/// Whether one of two paths, as segments, continues the other.
pub open spec fn compatible(a: Seq<Seq<u8>>, b: Seq<Seq<u8>>) -> bool {
    forall|k: int| 0 <= k < a.len() && k < b.len() ==> #[trigger] a[k] == b[k]
}

impl Prune {
    /// Whether something in the directory `rel` can match a pattern that
    /// includes.
    pub open spec fn can_contain(self, rel: Seq<u8>) -> bool {
        self.any_unanchored || exists|i: int|
            0 <= i < self.prefixes.len() && compatible(
                #[trigger] self.prefixes[i],
                pieces(rel, 47u8),
            )
    }
}

/// What the patterns allow to skip.
pub open spec fn prune_of(ps: Seq<PatternView>) -> Prune {
    Prune {
        any_unanchored: exists|i: int| 0 <= i < ps.len() && is_unanchored(#[trigger] ps[i]),
        prefixes: prefixes_of(ps),
    }
}

fn is_compatible(a: &Vec<Vec<u8>>, b: &Vec<Vec<u8>>) -> (r: bool)
    ensures
        r == compatible(rows(a@), rows(b@)),
{
    let mut i: usize = 0;
    while i < a.len() && i < b.len()
        invariant
            i <= a@.len(),
            i <= b@.len(),
            forall|k: int| 0 <= k < i ==> #[trigger] rows(a@)[k] == rows(b@)[k],
        decreases a@.len() - i,
    {
        if !same_bytes(a[i].as_slice(), b[i].as_slice()) {
            assert(rows(a@)[i as int] != rows(b@)[i as int]);
            return false;
        }
        i += 1;
    }
    true
}

impl PruneInfo {
    /// Whether the directory at `rel` can hold something that matches a pattern
    /// that includes, and so must be descended into.
    pub fn can_contain_match(&self, rel: &[u8]) -> (r: bool)
        ensures
            r == self@.can_contain(rel@),
    {
        if self.any_unanchored {
            return true;
        }
        let dir = split_bytes(rel, 47);
        let mut i: usize = 0;
        while i < self.prefixes.len()
            invariant
                i <= self.prefixes@.len(),
                rows(dir@) == pieces(rel@, 47u8),
                !self.any_unanchored,
                forall|k: int|
                    0 <= k < i ==> !compatible(#[trigger] self@.prefixes[k], pieces(rel@, 47u8)),
            decreases self.prefixes@.len() - i,
        {
            if is_compatible(&self.prefixes[i], &dir) {
                assert(compatible(self@.prefixes[i as int], pieces(rel@, 47u8)));
                return true;
            }
            assert(!compatible(self@.prefixes[i as int], pieces(rel@, 47u8)));
            i += 1;
        }
        false
    }
}

proof fn lemma_unanchored_in_len(
    found: Seq<(Seq<char>, Seq<char>)>,
    source: Seq<char>,
    ps: Seq<PatternView>,
)
    ensures
        unanchored_in(found, source, ps).len() > 0 <==> (found.len() > 0 || exists|i: int|
            0 <= i < ps.len() && is_unanchored(#[trigger] ps[i])),
    decreases ps.len(),
{
    if ps.len() > 0 {
        lemma_unanchored_in_len(found, source, ps.drop_last());
        if is_unanchored(ps.last()) {
            assert(is_unanchored(ps[ps.len() - 1]));
        }
        if exists|i: int| 0 <= i < ps.len() && is_unanchored(#[trigger] ps[i]) {
            let i = choose|i: int| 0 <= i < ps.len() && is_unanchored(#[trigger] ps[i]);
            if i < ps.len() - 1 {
                assert(ps.drop_last()[i] == ps[i]);
            }
        }
        if exists|i: int|
            0 <= i < ps.drop_last().len() && is_unanchored(#[trigger] ps.drop_last()[i]) {
            let i = choose|i: int|
                0 <= i < ps.drop_last().len() && is_unanchored(#[trigger] ps.drop_last()[i]);
            assert(ps[i] == ps.drop_last()[i]);
        }
    }
}

proof fn lemma_unanchored_len(layers: Seq<LayerView>)
    ensures
        unanchored_of(layers).len() > 0 <==> prune_of(flat(layers)).any_unanchored,
    decreases layers.len(),
{
    if layers.len() > 0 {
        let front = flat(layers.drop_last());
        let last = layers.last().patterns;
        let all = flat(layers);
        lemma_unanchored_len(layers.drop_last());
        lemma_unanchored_in_len(
            unanchored_of(layers.drop_last()),
            layers.last().source,
            last,
        );
        if exists|i: int| 0 <= i < front.len() && is_unanchored(#[trigger] front[i]) {
            let i = choose|i: int| 0 <= i < front.len() && is_unanchored(#[trigger] front[i]);
            assert(all[i] == front[i]);
        }
        if exists|i: int| 0 <= i < last.len() && is_unanchored(#[trigger] last[i]) {
            let i = choose|i: int| 0 <= i < last.len() && is_unanchored(#[trigger] last[i]);
            assert(all[front.len() + i] == last[i]);
        }
        if exists|i: int| 0 <= i < all.len() && is_unanchored(#[trigger] all[i]) {
            let i = choose|i: int| 0 <= i < all.len() && is_unanchored(#[trigger] all[i]);
            if i < front.len() {
                assert(front[i] == all[i]);
            } else {
                assert(last[i - front.len()] == all[i]);
            }
        }
    }
}

proof fn lemma_prefixes_of_sum(a: Seq<PatternView>, b: Seq<PatternView>)
    ensures
        prefixes_of(a + b) == prefixes_of(a) + prefixes_of(b),
    decreases b.len(),
{
    if b.len() == 0 {
        assert(a + b =~= a);
        assert(prefixes_of(a) + prefixes_of(b) =~= prefixes_of(a));
    } else {
        assert((a + b).drop_last() =~= a + b.drop_last());
        lemma_prefixes_of_sum(a, b.drop_last());
        assert((a + b).last() == b.last());
        assert(prefixes_of(a + b) =~= prefixes_of(a) + prefixes_of(b));
    }
}

/// The prefixes of the anchored patterns of one layer that include.
fn layer_prefixes(patterns: &Vec<Pattern>, out: &mut Vec<Vec<Vec<u8>>>)
    requires
        all_well_parsed(pattern_views(patterns@)),
    ensures
        segment_lists(final(out)@) == segment_lists(old(out)@) + prefixes_of(
            pattern_views(patterns@),
        ),
{
    let ghost ps = pattern_views(patterns@);
    let ghost before = segment_lists(out@);
    let mut j: usize = 0;
    proof {
        assert(ps.take(0) =~= Seq::<PatternView>::empty());
        assert(segment_lists(out@) =~= before + Seq::<Seq<Seq<u8>>>::empty());
    }
    while j < patterns.len()
        invariant
            j <= patterns@.len(),
            ps == pattern_views(patterns@),
            all_well_parsed(ps),
            segment_lists(out@) == before + prefixes_of(ps.take(j as int)),
        decreases patterns@.len() - j,
    {
        let pattern = &patterns[j];
        proof {
            assert(ps[j as int] == pattern@);
            assert(well_parsed(ps[j as int]));
            let next = ps.take(j + 1);
            assert(next.drop_last() =~= ps.take(j as int));
            assert(next.last() == pattern@);
        }
        if !pattern.negative {
            if let Some(segments) = prunable_prefix(pattern) {
                let ghost was = out@;
                proof {
                    assert(segment_lists(was.push(segments)) =~= segment_lists(was).push(
                        rows(segments@),
                    ));
                    assert((before + prefixes_of(ps.take(j as int))).push(rows(segments@))
                        =~= before + prefixes_of(ps.take(j as int)).push(rows(segments@)));
                }
                out.push(segments);
            }
        }
        j += 1;
    }
    proof {
        assert(ps.take(ps.len() as int) =~= ps);
    }
}

/// The segments of a list of paths.
pub open spec fn segment_lists(v: Seq<Vec<Vec<u8>>>) -> Seq<Seq<Seq<u8>>> {
    Seq::new(v.len(), |i: int| rows(v[i]@))
}

/// What the patterns of `list` allow to skip.
pub fn build_prune_info(list: &AllowList) -> (r: PruneInfo)
    ensures
        r@ == prune_of(flat(list@)),
        r.unanchored_count == unanchored_of(list@).len(),
        r.any_unanchored <==> r.unanchored_count > 0,
{
    let unanchored = unanchored_patterns(list);
    let layers = list.layers();
    let ghost views = list@;
    let mut prefixes: Vec<Vec<Vec<u8>>> = Vec::new();
    let mut i: usize = 0;
    proof {
        assert(views.take(0) =~= Seq::<LayerView>::empty());
        assert(segment_lists(prefixes@) =~= Seq::<Seq<Seq<u8>>>::empty());
    }
    while i < layers.len()
        invariant
            i <= layers@.len(),
            layers@.len() == views.len(),
            forall|k: int| 0 <= k < layers@.len() ==> (#[trigger] layers@[k])@ == views[k],
            all_well_parsed(flat(views)),
            segment_lists(prefixes@) == prefixes_of(flat(views.take(i as int))),
        decreases layers@.len() - i,
    {
        proof {
            assert(layers@[i as int]@ == views[i as int]);
            let ps = pattern_views(layers@[i as int].patterns@);
            assert(ps == views[i as int].patterns);
            assert forall|j: int| 0 <= j < ps.len() implies well_parsed(#[trigger] ps[j]) by {
                lemma_layer_well_parsed(views, i as int, j);
            }
            lemma_flat_push(views, i as int);
            lemma_prefixes_of_sum(flat(views.take(i as int)), ps);
        }
        layer_prefixes(&layers[i].patterns, &mut prefixes);
        i += 1;
    }
    let r = PruneInfo {
        any_unanchored: unanchored.len() > 0,
        unanchored_count: unanchored.len(),
        prefixes,
    };
    proof {
        assert(views.take(views.len() as int) =~= views);
        lemma_unanchored_len(views);
        assert(r@.prefixes =~= segment_lists(prefixes@));
    }
    r
}

/// What an entry of a directory is.
#[derive(Debug, Clone, Copy, PartialEq, Eq, Structural)]
pub enum FileKind {
    /// A directory.
    Dir,
    /// A file.
    File,
    /// A symbolic link.
    Symlink,
    /// Something that no tree can hold, such as a socket.
    Other,
}

/// An entry of a directory.
#[derive(Debug)]
pub struct DirEntry {
    /// Its name.
    pub name: Vec<u8>,
    /// What it is.
    pub kind: FileKind,
}

/// The names and kinds of a listing.
pub open spec fn listing(v: Seq<DirEntry>) -> Seq<(Seq<u8>, FileKind)> {
    Seq::new(v.len(), |i: int| (v[i].name@, v[i].kind))
}

/// Whether `name` can be the name of an entry: it is not empty and holds no
/// slash.
pub open spec fn is_name(name: Seq<u8>) -> bool {
    name.len() > 0 && !name.contains(47)
}

/// Whether `name` is that of a git directory, which is never descended into.
pub open spec fn is_dot_git(name: Seq<u8>) -> bool {
    name == seq![46u8, 103, 105, 116]
}

/// The path of an entry of the directory at `prefix`, relative to the root.
pub open spec fn rel_of(prefix: Seq<u8>, name: Seq<u8>) -> Seq<u8> {
    if prefix.len() == 0 {
        name
    } else {
        prefix.push(47) + name
    }
}

/// Whether a path is included: by the verdict on it, or as what holds it is.
pub open spec fn included(
    ps: Seq<PatternView>,
    rel: Seq<u8>,
    is_dir: bool,
    inherited: bool,
) -> bool {
    match verdict(ps, rel, is_dir) {
        Some(says) => says,
        None => inherited,
    }
}

/// What looking at a directory gives: the paths selected, the directories to
/// descend into, each with its state, and how many entries were looked at and
/// how many directories were skipped.
pub struct Visit {
    pub out: Seq<Seq<u8>>,
    pub dirs: Seq<(Seq<u8>, bool)>,
    pub considered: nat,
    pub pruned: nat,
}

/// `later` with what one more entry gives.
pub open spec fn visit_entry(
    later: Visit,
    ps: Seq<PatternView>,
    prune: Prune,
    entry: (Seq<u8>, FileKind),
    prefix: Seq<u8>,
    inherited: bool,
) -> Visit {
    let rel = rel_of(prefix, entry.0);
    if is_dot_git(entry.0) {
        later
    } else {
        let seen = Visit { considered: later.considered + 1, ..later };
        match entry.1 {
            FileKind::Dir => {
                let state = included(ps, rel, true, inherited);
                if state || prune.can_contain(rel) {
                    Visit { dirs: seen.dirs.push((rel, state)), ..seen }
                } else {
                    Visit { pruned: seen.pruned + 1, ..seen }
                }
            },
            FileKind::Other => seen,
            _ => if included(ps, rel, false, inherited) {
                Visit { out: seen.out.push(rel), ..seen }
            } else {
                seen
            },
        }
    }
}

/// What looking at the entries of the directory at `prefix` gives, the last
/// entry first.
pub open spec fn visit_of(
    ps: Seq<PatternView>,
    prune: Prune,
    entries: Seq<(Seq<u8>, FileKind)>,
    prefix: Seq<u8>,
    inherited: bool,
) -> Visit
    decreases entries.len(),
{
    if entries.len() == 0 {
        Visit { out: Seq::empty(), dirs: Seq::empty(), considered: 0, pruned: 0 }
    } else {
        visit_entry(
            visit_of(ps, prune, entries.skip(1), prefix, inherited),
            ps,
            prune,
            entries[0],
            prefix,
            inherited,
        )
    }
}

/// The path of the entry `name` in the directory at `prefix`, relative to the
/// root.
pub fn join_rel(prefix: &[u8], name: &[u8]) -> (r: Vec<u8>)
    ensures
        r@ == rel_of(prefix@, name@),
{
    let mut out = copy_bytes(prefix);
    if prefix.len() > 0 {
        out.push(47);
    }
    out.extend_from_slice(name);
    assert(out@ =~= rel_of(prefix@, name@));
    out
}

/// A directory that the walk has yet to look at.
#[derive(Debug)]
pub struct PendingDir {
    /// Its path, relative to the root.
    pub rel: Vec<u8>,
    /// Whether it is included.
    pub included: bool,
}

/// What is pending, as paths and states.
pub open spec fn pending_dirs(v: Seq<PendingDir>) -> Seq<(Seq<u8>, bool)> {
    Seq::new(v.len(), |i: int| (v[i].rel@, v[i].included))
}

/// How far a walk has come.
struct Progress {
    out: Vec<Vec<u8>>,
    pending: Vec<PendingDir>,
    entered: usize,
    pruned: usize,
    considered: usize,
}

impl Progress {
    spec fn well_formed(self) -> bool {
        &&& self.entered + self.pruned + self.pending@.len() <= self.considered + 1
        &&& forall|i: int|
            0 <= i < self.pending@.len() ==> ((#[trigger] self.pending@[i]).rel@.len() > 0
                ==> self.pending@[i].rel@[0] != 47)
    }
}

/// The walk through a working tree, one directory at a time: [`Walk::next`]
/// says which directory to list, and [`Walk::visit`] takes its entries.
pub struct Walk {
    list: AllowList,
    prune: PruneInfo,
    progress: Progress,
}

/// Whether `name` is that of a git directory.
pub fn is_git_name(name: &[u8]) -> (r: bool)
    ensures
        r == is_dot_git(name@),
{
    let r = name.len() == 4 && name[0] == 46 && name[1] == 103 && name[2] == 105 && name[3] == 116;
    proof {
        if r {
            assert(name@ =~= seq![46u8, 103, 105, 116]);
        }
    }
    r
}

impl Walk {
    /// The patterns, the last of which that matches decides.
    pub closed spec fn patterns(self) -> Seq<PatternView> {
        flat(self.list@)
    }

    /// The paths selected so far.
    pub closed spec fn out(self) -> Seq<Seq<u8>> {
        rows(self.progress.out@)
    }

    /// The directories yet to be looked at, with their states; the last one is
    /// next.
    pub closed spec fn pending(self) -> Seq<(Seq<u8>, bool)> {
        pending_dirs(self.progress.pending@)
    }

    /// What the walk has cost so far.
    pub closed spec fn stats(self) -> SelectStats {
        SelectStats {
            dirs_entered: self.progress.entered,
            dirs_pruned: self.progress.pruned,
            paths_considered: self.progress.considered,
            unanchored_patterns: self.prune.unanchored_count,
        }
    }

    #[verifier::type_invariant]
    spec fn well_formed(self) -> bool {
        &&& self.prune@ == prune_of(flat(self.list@))
        &&& self.prune.unanchored_count == unanchored_of(self.list@).len()
        &&& self.prune.any_unanchored <==> self.prune.unanchored_count > 0
        &&& self.prune.any_unanchored ==> self.progress.pruned == 0
        &&& self.progress.well_formed()
    }

    /// A walk that has yet to look at the root.
    pub fn new(list: AllowList) -> (r: Self)
        ensures
            r.patterns() == flat(list@),
            r.out() == Seq::<Seq<u8>>::empty(),
            r.pending() == seq![(Seq::<u8>::empty(), false)],
            r.stats() == (SelectStats {
                dirs_entered: 0,
                dirs_pruned: 0,
                paths_considered: 0,
                unanchored_patterns: unanchored_of(list@).len() as usize,
            }),
    {
        let prune = build_prune_info(&list);
        let mut pending: Vec<PendingDir> = Vec::new();
        pending.push(PendingDir { rel: Vec::new(), included: false });
        let progress = Progress {
            out: Vec::new(),
            pending,
            entered: 0,
            pruned: 0,
            considered: 0,
        };
        let r = Walk { list, prune, progress };
        proof {
            assert(r.out() =~= Seq::<Seq<u8>>::empty());
            assert(r.pending() =~= seq![(Seq::<u8>::empty(), false)]);
        }
        r
    }

    /// The directory to list next, or `None` where the walk is done.
    pub fn next(&self) -> (r: Option<Vec<u8>>)
        ensures
            match r {
                Some(rel) => self.pending().len() > 0 && rel@ == self.pending().last().0,
                None => self.pending().len() == 0,
            },
    {
        let n: usize = self.progress.pending.len();
        if n == 0 {
            None
        } else {
            Some(copy_bytes(self.progress.pending[n - 1].rel.as_slice()))
        }
    }

    /// Takes the entries of the directory that [`Walk::next`] named.
    pub fn visit(&mut self, entries: &Vec<DirEntry>)
        requires
            old(self).pending().len() > 0,
            forall|i: int| 0 <= i < entries@.len() ==> is_name((#[trigger] entries@[i]).name@),
            old(self).stats().paths_considered + entries@.len() < usize::MAX,
        ensures
            ({
                let (rel, included) = old(self).pending().last();
                let ps = old(self).patterns();
                let visit = visit_of(ps, prune_of(ps), listing(entries@), rel, included);
                let was = old(self).stats();
                &&& final(self).patterns() == ps
                &&& final(self).out() == old(self).out() + visit.out
                &&& final(self).pending() == old(self).pending().drop_last() + visit.dirs
                &&& final(self).stats().dirs_entered == was.dirs_entered + 1
                &&& final(self).stats().dirs_pruned == was.dirs_pruned + visit.pruned
                &&& final(self).stats().paths_considered == was.paths_considered
                    + visit.considered
                &&& final(self).stats().unanchored_patterns == was.unanchored_patterns
            }),
    {
        proof {
            use_type_invariant(&*self);
        }
        let ghost before = *self;
        let mut p = Progress {
            out: Vec::new(),
            pending: Vec::new(),
            entered: 0,
            pruned: 0,
            considered: 0,
        };
        std::mem::swap(&mut p, &mut self.progress);
        let Progress { mut out, mut pending, entered, mut pruned, mut considered } = p;
        let ghost out0 = rows(out@);
        let ghost pending0 = pending_dirs(pending@);
        let dir = match pending.pop() {
            Some(dir) => dir,
            None => {
                proof {
                    assert(false);
                }
                return ;
            },
        };
        let ghost base = pending_dirs(pending@);
        let ghost ps = flat(self.list@);
        let ghost prune = prune_of(ps);
        let ghost names = listing(entries@);
        let ghost pruned0 = pruned;
        let ghost considered0 = considered;
        proof {
            assert(base =~= pending0.drop_last());
            assert(names.skip(names.len() as int) =~= Seq::<(Seq<u8>, FileKind)>::empty());
            assert(rows(out@) =~= out0 + Seq::<Seq<u8>>::empty());
            assert(pending_dirs(pending@) =~= base + Seq::<(Seq<u8>, bool)>::empty());
        }
        let mut i: usize = entries.len();
        while i > 0
            invariant
                i <= entries@.len(),
                names == listing(entries@),
                self.list == before.list,
                self.prune == before.prune,
                ps == flat(self.list@),
                prune == prune_of(ps),
                self.prune@ == prune,
                forall|k: int| 0 <= k < entries@.len() ==> is_name((#[trigger] entries@[k]).name@),
                dir.rel@.len() > 0 ==> dir.rel@[0] != 47,
                rows(out@) == out0 + visit_of(
                    ps,
                    prune,
                    names.skip(i as int),
                    dir.rel@,
                    dir.included,
                ).out,
                pending_dirs(pending@) == base + visit_of(
                    ps,
                    prune,
                    names.skip(i as int),
                    dir.rel@,
                    dir.included,
                ).dirs,
                pruned == pruned0 + visit_of(
                    ps,
                    prune,
                    names.skip(i as int),
                    dir.rel@,
                    dir.included,
                ).pruned,
                considered == considered0 + visit_of(
                    ps,
                    prune,
                    names.skip(i as int),
                    dir.rel@,
                    dir.included,
                ).considered,
                considered <= considered0 + (entries@.len() - i),
                considered0 + entries@.len() < usize::MAX,
                entered + 1 + pruned + pending@.len() <= considered + 1,
                prune.any_unanchored ==> pruned == 0,
                forall|k: int|
                    0 <= k < pending@.len() ==> ((#[trigger] pending@[k]).rel@.len() > 0
                        ==> pending@[k].rel@[0] != 47),
            decreases i,
        {
            i -= 1;
            let name = entries[i].name.as_slice();
            let ghost later = visit_of(
                ps,
                prune,
                names.skip(i as int + 1),
                dir.rel@,
                dir.included,
            );
            let ghost out1 = out@;
            let ghost pending1 = pending@;
            proof {
                let rest = names.skip(i as int);
                assert(rest.skip(1) =~= names.skip(i as int + 1));
                assert(rest[0] == (entries@[i as int].name@, entries@[i as int].kind));
                assert(is_name(entries@[i as int].name@));
                assert(!name@.contains(47));
                assert(name@[0] != 47);
            }
            if !is_git_name(name) {
                let rel = join_rel(dir.rel.as_slice(), name);
                considered = considered + 1;
                match entries[i].kind {
                    FileKind::Dir => {
                        let state = match self.list.classify(rel.as_slice(), true) {
                            Some(says) => says,
                            None => dir.included,
                        };
                        if state || self.prune.can_contain_match(rel.as_slice()) {
                            let found = PendingDir { rel, included: state };
                            proof {
                                assert(pending_dirs(pending1.push(found)) =~= pending_dirs(
                                    pending1,
                                ).push((found.rel@, state)));
                                assert((base + later.dirs).push((found.rel@, state)) =~= base
                                    + later.dirs.push((found.rel@, state)));
                            }
                            pending.push(found);
                        } else {
                            pruned = pruned + 1;
                        }
                    },
                    FileKind::Other => {},
                    _ => {
                        let state = match self.list.classify(rel.as_slice(), false) {
                            Some(says) => says,
                            None => dir.included,
                        };
                        if state {
                            proof {
                                assert(rows(out1.push(rel)) =~= rows(out1).push(rel@));
                                assert((out0 + later.out).push(rel@) =~= out0 + later.out.push(
                                    rel@,
                                ));
                            }
                            out.push(rel);
                        }
                    },
                }
            }
        }
        proof {
            assert(names.skip(0) =~= names);
        }
        self.progress = Progress { out, pending, entered: entered + 1, pruned, considered };
    }

    /// The selection of a walk that is done.
    pub fn finish(&self) -> (r: Selection)
        ensures
            ascending(rows(r.paths@)),
            forall|path: Seq<u8>| rows(r.paths@).contains(path) <==> self.out().contains(path),
            r.stats == self.stats(),
            r.stats.unanchored_patterns > 0 ==> r.stats.dirs_pruned == 0,
    {
        proof {
            use_type_invariant(self);
        }
        Selection {
            paths: sorted_rows(&self.progress.out),
            stats: SelectStats {
                dirs_entered: self.progress.entered,
                dirs_pruned: self.progress.pruned,
                paths_considered: self.progress.considered,
                unanchored_patterns: self.prune.unanchored_count,
            },
        }
    }
}

/// What an entry of a working tree is, with what is in it.
pub enum Node {
    /// A directory, with the names of its entries.
    Dir(Seq<(Seq<u8>, Node)>),
    /// A file.
    File,
    /// A symbolic link.
    Symlink,
    /// Something that no tree can hold.
    Other,
}

impl Node {
    /// What a listing says of the entry.
    pub open spec fn kind(self) -> FileKind {
        match self {
            Node::Dir(_) => FileKind::Dir,
            Node::File => FileKind::File,
            Node::Symlink => FileKind::Symlink,
            Node::Other => FileKind::Other,
        }
    }

    /// Whether every name in it can be the name of an entry.
    pub open spec fn has_names(self) -> bool
        decreases self,
    {
        match self {
            Node::Dir(entries) => forall|i: int|
                0 <= i < entries.len() ==> is_name((#[trigger] entries[i]).0)
                    && entries[i].1.has_names(),
            _ => true,
        }
    }
}

/// The listing of a directory.
pub open spec fn listed(entries: Seq<(Seq<u8>, Node)>) -> Seq<(Seq<u8>, FileKind)> {
    Seq::new(entries.len(), |i: int| (entries[i].0, entries[i].1.kind()))
}

/// What lets nothing be skipped.
pub open spec fn nothing_pruned() -> Prune {
    Prune { any_unanchored: true, prefixes: Seq::empty() }
}

/// Whether a walk that skips what `prune` lets it skip selects `path` at the
/// entry `name` of the directory at `prefix`.
pub open spec fn node_selects(
    ps: Seq<PatternView>,
    prune: Prune,
    node: Node,
    name: Seq<u8>,
    prefix: Seq<u8>,
    inherited: bool,
    path: Seq<u8>,
) -> bool
    decreases node,
{
    let rel = rel_of(prefix, name);
    !is_dot_git(name) && match node {
        Node::Dir(entries) => {
            let state = included(ps, rel, true, inherited);
            (state || prune.can_contain(rel)) && exists|i: int|
                0 <= i < entries.len() && node_selects(
                    ps,
                    prune,
                    (#[trigger] entries[i]).1,
                    entries[i].0,
                    rel,
                    state,
                    path,
                )
        },
        Node::Other => false,
        _ => included(ps, rel, false, inherited) && path == rel,
    }
}

/// Whether a walk that skips what `prune` lets it skip selects `path` among the
/// entries of the directory at `prefix`.
pub open spec fn selects(
    ps: Seq<PatternView>,
    prune: Prune,
    entries: Seq<(Seq<u8>, Node)>,
    prefix: Seq<u8>,
    inherited: bool,
    path: Seq<u8>,
) -> bool {
    exists|i: int|
        0 <= i < entries.len() && node_selects(
            ps,
            prune,
            (#[trigger] entries[i]).1,
            entries[i].0,
            prefix,
            inherited,
            path,
        )
}

/// The segments of a path; the root has none.
pub open spec fn segments(rel: Seq<u8>) -> Seq<Seq<u8>> {
    if rel.len() == 0 {
        Seq::empty()
    } else {
        pieces(rel, 47u8)
    }
}

/// Whether `rel` is the root or a path of names.
pub open spec fn is_rel(rel: Seq<u8>) -> bool {
    forall|i: int| 0 <= i < segments(rel).len() ==> (#[trigger] segments(rel)[i]).len() > 0
}

proof fn lemma_next_index_here(s: Seq<u8>, c: u8, from: int, i: int)
    requires
        0 <= from <= i <= s.len(),
        forall|k: int| from <= k < i ==> s[k] != c,
        i < s.len() ==> s[i] == c,
    ensures
        next_index(s, c, from) == i,
    decreases i - from,
{
    if from < i {
        lemma_next_index_here(s, c, from + 1, i);
    }
}

proof fn lemma_next_index_is(s: Seq<u8>, c: u8, from: int)
    requires
        0 <= from <= s.len(),
    ensures
        from <= next_index(s, c, from) <= s.len(),
        next_index(s, c, from) < s.len() ==> s[next_index(s, c, from)] == c,
        forall|k: int| from <= k < next_index(s, c, from) ==> #[trigger] s[k] != c,
    decreases s.len() - from,
{
    if from < s.len() && s[from] != c {
        lemma_next_index_is(s, c, from + 1);
    }
}

/// Text around a separator has the pieces of either side.
proof fn lemma_pieces_join(a: Seq<u8>, b: Seq<u8>, c: u8)
    ensures
        pieces(a.push(c) + b, c) == pieces(a, c) + pieces(b, c),
    decreases a.len(),
{
    let s = a.push(c) + b;
    let i = next_index(a, c, 0);
    lemma_next_index_is(a, c, 0);
    assert forall|k: int| 0 <= k < i implies s[k] != c by {
        assert(s[k] == a[k]);
    }
    assert(s[i] == c) by {
        if i < a.len() {
            assert(s[i] == a[i]);
        }
    }
    lemma_next_index_here(s, c, 0, i);
    assert(s.subrange(0, i) =~= a.subrange(0, i));
    if i < a.len() {
        let rest = a.subrange(i + 1, a.len() as int);
        assert(s.subrange(i + 1, s.len() as int) =~= rest.push(c) + b);
        lemma_pieces_join(rest, b, c);
        assert(seq![a.subrange(0, i)] + (pieces(rest, c) + pieces(b, c)) =~= (seq![
            a.subrange(0, i),
        ] + pieces(rest, c)) + pieces(b, c));
    } else {
        assert(a.subrange(0, i) =~= a);
        assert(s.subrange(i + 1, s.len() as int) =~= b);
    }
}

proof fn lemma_pieces_of_name(name: Seq<u8>)
    requires
        is_name(name),
    ensures
        pieces(name, 47u8) == seq![name],
{
    assert forall|k: int| 0 <= k < name.len() implies name[k] != 47 by {
        assert(name.contains(name[k]));
    }
    lemma_next_index_here(name, 47u8, 0, name.len() as int);
}

/// The segments of an entry's path are those of its directory and its name.
proof fn lemma_segments_of_entry(prefix: Seq<u8>, name: Seq<u8>)
    requires
        is_name(name),
    ensures
        segments(rel_of(prefix, name)) == segments(prefix).push(name),
        rel_of(prefix, name).len() > 0,
        is_rel(prefix) ==> is_rel(rel_of(prefix, name)),
{
    lemma_pieces_of_name(name);
    let rel = rel_of(prefix, name);
    if prefix.len() > 0 {
        lemma_pieces_join(prefix, name, 47u8);
        assert(pieces(prefix, 47u8) + seq![name] =~= pieces(prefix, 47u8).push(name));
    } else {
        assert(Seq::<Seq<u8>>::empty().push(name) =~= seq![name]);
    }
    assert(segments(rel) == segments(prefix).push(name));
    if is_rel(prefix) {
        assert forall|i: int| 0 <= i < segments(rel).len() implies (#[trigger] segments(
            rel,
        )[i]).len() > 0 by {
            if i < segments(prefix).len() {
                assert(segments(rel)[i] == segments(prefix)[i]);
            }
        }
    }
}

proof fn lemma_nonempty_all(v: Seq<Seq<u8>>)
    requires
        forall|i: int| 0 <= i < v.len() ==> (#[trigger] v[i]).len() > 0,
    ensures
        nonempty(v) == v,
    decreases v.len(),
{
    if v.len() > 0 {
        assert(v.last() == v[v.len() - 1]);
        assert forall|i: int| 0 <= i < v.drop_last().len() implies (#[trigger] v.drop_last()[i]).len()
            > 0 by {
            assert(v.drop_last()[i] == v[i]);
        }
        lemma_nonempty_all(v.drop_last());
        assert(v.drop_last().push(v.last()) =~= v);
    }
}

proof fn lemma_last_index(s: Seq<u8>, b: u8)
    ensures
        -1 <= last_index(s, b) < s.len(),
        last_index(s, b) >= 0 ==> s[last_index(s, b)] == b,
    decreases s.len(),
{
    if s.len() > 0 && s.last() != b {
        lemma_last_index(s.drop_last(), b);
    }
}

/// What an anchored pattern matches lies in the directories that it starts with.
proof fn lemma_prefix_fits(p: PatternView, rel: Seq<u8>, is_dir: bool)
    requires
        well_parsed(p),
        pattern_matches(p, rel, is_dir),
        prefix_of(p) is Some,
        rel.len() > 0,
        is_rel(rel),
    ensures
        prefix_of(p)->0.is_prefix_of(segments(rel)),
{
    assert(head_fits(p, rel));
    let segs = segments(rel);
    assert forall|i: int| 0 <= i < segs.len() implies (#[trigger] segs[i]).len() > 0 by {
        assert(segments(rel)[i].len() > 0);
    }
    match p.first_wildcard {
        None => {
            lemma_nonempty_all(segs);
            assert(prefix_of(p)->0 =~= segs.subrange(0, segs.len() as int));
        },
        Some(pos) => {
            let head = p.text.take(pos as int);
            let slash = last_index(head, 47);
            lemma_last_index(head, 47);
            if slash < 0 {
                assert(pieces(Seq::<u8>::empty(), 47u8) =~= seq![Seq::<u8>::empty()]);
                reveal_with_fuel(nonempty, 2);
                assert(nonempty(seq![Seq::<u8>::empty()]).len() == 0) by {
                    assert(seq![Seq::<u8>::empty()].drop_last() =~= Seq::<Seq<u8>>::empty());
                }
            } else {
                let literal = p.text.take(slash);
                let more = rel.subrange(slash + 1, rel.len() as int);
                assert forall|k: int| 0 <= k < pos implies rel[k] == head[k] by {
                    assert(rel.subrange(0, pos as int)[k] == head[k]);
                }
                assert(rel =~= literal.push(47) + more);
                lemma_pieces_join(literal, more, 47u8);
                let front = pieces(literal, 47u8);
                assert forall|i: int| 0 <= i < front.len() implies (#[trigger] front[i]).len()
                    > 0 by {
                    assert(segs[i] == front[i]);
                }
                lemma_nonempty_all(front);
                assert(front =~= segs.subrange(0, front.len() as int));
            }
        },
    }
}

proof fn lemma_prefix_is_listed(ps: Seq<PatternView>, i: int)
    requires
        0 <= i < ps.len(),
        !ps[i].negative,
        prefix_of(ps[i]) is Some,
    ensures
        exists|k: int|
            0 <= k < prefixes_of(ps).len() && #[trigger] prefixes_of(ps)[k] == prefix_of(ps[i])->0,
    decreases ps.len(),
{
    let front = prefixes_of(ps.drop_last());
    if i == ps.len() - 1 {
        assert(prefixes_of(ps)[front.len() as int] == prefix_of(ps[i])->0);
    } else {
        assert(ps.drop_last()[i] == ps[i]);
        lemma_prefix_is_listed(ps.drop_last(), i);
        let k = choose|k: int| 0 <= k < front.len() && #[trigger] front[k] == prefix_of(ps[i])->0;
        assert(prefixes_of(ps)[k] == front[k]);
    }
}

/// Below a directory that can hold no match, no pattern includes anything.
proof fn lemma_no_match_below(
    ps: Seq<PatternView>,
    dir: Seq<u8>,
    rel: Seq<u8>,
    is_dir: bool,
)
    requires
        all_well_parsed(ps),
        dir.len() > 0,
        !prune_of(ps).can_contain(dir),
        rel.len() > 0,
        is_rel(rel),
        segments(dir).is_prefix_of(segments(rel)),
    ensures
        verdict(ps, rel, is_dir) != Some(true),
{
    if verdict(ps, rel, is_dir) == Some(true) {
        lemma_verdict_has_a_pattern(ps, rel, is_dir);
        let i = choose|i: int|
            0 <= i < ps.len() && pattern_matches(#[trigger] ps[i], rel, is_dir) && verdict(
                ps,
                rel,
                is_dir,
            ) == Some(!ps[i].negative);
        assert(!is_unanchored(ps[i]));
        assert(well_parsed(ps[i]));
        lemma_prefix_fits(ps[i], rel, is_dir);
        lemma_prefix_is_listed(ps, i);
        let prefix = prefix_of(ps[i])->0;
        let k = choose|k: int|
            0 <= k < prefixes_of(ps).len() && #[trigger] prefixes_of(ps)[k] == prefix;
        let all = segments(rel);
        let dirs = segments(dir);
        assert(compatible(prefix, pieces(dir, 47u8))) by {
            assert forall|j: int| 0 <= j < prefix.len() && j < dirs.len() implies #[trigger] prefix[j]
                == dirs[j] by {
                assert(all.subrange(0, prefix.len() as int)[j] == prefix[j]);
                assert(all.subrange(0, dirs.len() as int)[j] == dirs[j]);
            }
        }
        assert(prune_of(ps).prefixes[k] == prefix);
        assert(false);
    }
}

/// Below a directory that is not included and can hold no match, nothing is
/// selected.
proof fn lemma_nothing_below(
    ps: Seq<PatternView>,
    prune: Prune,
    dir: Seq<u8>,
    node: Node,
    name: Seq<u8>,
    prefix: Seq<u8>,
    path: Seq<u8>,
)
    requires
        all_well_parsed(ps),
        dir.len() > 0,
        !prune_of(ps).can_contain(dir),
        is_rel(prefix),
        segments(dir).is_prefix_of(segments(prefix)),
        is_name(name),
        node.has_names(),
    ensures
        !node_selects(ps, prune, node, name, prefix, false, path),
    decreases node,
{
    let rel = rel_of(prefix, name);
    lemma_segments_of_entry(prefix, name);
    let dirs = segments(dir);
    assert(dirs.is_prefix_of(segments(rel))) by {
        assert(dirs =~= segments(rel).subrange(0, dirs.len() as int)) by {
            assert forall|k: int| 0 <= k < dirs.len() implies dirs[k] == segments(rel)[k] by {
                assert(segments(prefix).subrange(0, dirs.len() as int)[k] == dirs[k]);
            }
        }
    }
    lemma_no_match_below(ps, dir, rel, true);
    lemma_no_match_below(ps, dir, rel, false);
    match node {
        Node::Dir(entries) => {
            assert forall|i: int| 0 <= i < entries.len() implies !node_selects(
                ps,
                prune,
                (#[trigger] entries[i]).1,
                entries[i].0,
                rel,
                false,
                path,
            ) by {
                lemma_nothing_below(ps, prune, dir, entries[i].1, entries[i].0, rel, path);
            }
        },
        _ => {},
    }
}

proof fn lemma_pruning_at(
    ps: Seq<PatternView>,
    node: Node,
    name: Seq<u8>,
    prefix: Seq<u8>,
    inherited: bool,
    path: Seq<u8>,
)
    requires
        all_well_parsed(ps),
        is_rel(prefix),
        is_name(name),
        node.has_names(),
    ensures
        node_selects(ps, prune_of(ps), node, name, prefix, inherited, path) == node_selects(
            ps,
            nothing_pruned(),
            node,
            name,
            prefix,
            inherited,
            path,
        ),
    decreases node,
{
    let rel = rel_of(prefix, name);
    let full = nothing_pruned();
    lemma_segments_of_entry(prefix, name);
    match node {
        Node::Dir(entries) => {
            let state = included(ps, rel, true, inherited);
            assert forall|i: int| 0 <= i < entries.len() implies node_selects(
                ps,
                prune_of(ps),
                (#[trigger] entries[i]).1,
                entries[i].0,
                rel,
                state,
                path,
            ) == node_selects(ps, full, entries[i].1, entries[i].0, rel, state, path) by {
                lemma_pruning_at(ps, entries[i].1, entries[i].0, rel, state, path);
            }
            assert(full.can_contain(rel));
            if !state && !prune_of(ps).can_contain(rel) {
                assert(segments(rel).is_prefix_of(segments(rel))) by {
                    assert(segments(rel) =~= segments(rel).subrange(
                        0,
                        segments(rel).len() as int,
                    ));
                }
                assert forall|i: int| 0 <= i < entries.len() implies !node_selects(
                    ps,
                    full,
                    (#[trigger] entries[i]).1,
                    entries[i].0,
                    rel,
                    state,
                    path,
                ) by {
                    lemma_nothing_below(ps, full, rel, entries[i].1, entries[i].0, rel, path);
                }
            }
        },
        _ => {},
    }
}

/// Skipping never changes what is selected: a walk that skips what the patterns
/// let it skip selects exactly the paths that a walk through everything selects.
pub proof fn law_pruning_never_changes_the_selection(
    ps: Seq<PatternView>,
    entries: Seq<(Seq<u8>, Node)>,
    path: Seq<u8>,
)
    requires
        all_well_parsed(ps),
        Node::Dir(entries).has_names(),
    ensures
        selects(ps, prune_of(ps), entries, Seq::empty(), false, path) == selects(
            ps,
            nothing_pruned(),
            entries,
            Seq::empty(),
            false,
            path,
        ),
{
    assert forall|i: int| 0 <= i < entries.len() implies node_selects(
        ps,
        prune_of(ps),
        (#[trigger] entries[i]).1,
        entries[i].0,
        Seq::empty(),
        false,
        path,
    ) == node_selects(
        ps,
        nothing_pruned(),
        entries[i].1,
        entries[i].0,
        Seq::empty(),
        false,
        path,
    ) by {
        lemma_names_of_entries(entries, i);
        lemma_pruning_at(ps, entries[i].1, entries[i].0, Seq::empty(), false, path);
    }
}

proof fn lemma_names_of_entries(entries: Seq<(Seq<u8>, Node)>, i: int)
    requires
        Node::Dir(entries).has_names(),
        0 <= i < entries.len(),
    ensures
        is_name(entries[i].0),
        entries[i].1.has_names(),
        is_rel(Seq::empty()),
{
    let root = Node::Dir(entries);
    assert(root.has_names());
    assert(root matches Node::Dir(es) && es[i] == entries[i]);
}

/// Whether a walk that skips what `prune` lets it skip enters the directory
/// `dir` at the entry `name` of the directory at `prefix`.
pub open spec fn node_enters(
    ps: Seq<PatternView>,
    prune: Prune,
    node: Node,
    name: Seq<u8>,
    prefix: Seq<u8>,
    inherited: bool,
    dir: Seq<u8>,
) -> bool
    decreases node,
{
    let rel = rel_of(prefix, name);
    !is_dot_git(name) && match node {
        Node::Dir(entries) => {
            let state = included(ps, rel, true, inherited);
            (state || prune.can_contain(rel)) && (dir == rel || exists|i: int|
                0 <= i < entries.len() && node_enters(
                    ps,
                    prune,
                    (#[trigger] entries[i]).1,
                    entries[i].0,
                    rel,
                    state,
                    dir,
                ))
        },
        _ => false,
    }
}

/// Skipping only skips: a walk enters no directory that a walk through
/// everything would not.
pub proof fn law_pruning_only_skips(
    ps: Seq<PatternView>,
    prune: Prune,
    node: Node,
    name: Seq<u8>,
    prefix: Seq<u8>,
    inherited: bool,
    dir: Seq<u8>,
)
    requires
        node_enters(ps, prune, node, name, prefix, inherited, dir),
    ensures
        node_enters(ps, nothing_pruned(), node, name, prefix, inherited, dir),
    decreases node,
{
    let rel = rel_of(prefix, name);
    match node {
        Node::Dir(entries) => {
            let state = included(ps, rel, true, inherited);
            assert(nothing_pruned().can_contain(rel));
            if dir != rel {
                let i = choose|i: int|
                    0 <= i < entries.len() && node_enters(
                        ps,
                        prune,
                        (#[trigger] entries[i]).1,
                        entries[i].0,
                        rel,
                        state,
                        dir,
                    );
                law_pruning_only_skips(ps, prune, entries[i].1, entries[i].0, rel, state, dir);
            }
        },
        _ => {},
    }
}

/// One pattern that includes at any depth keeps every directory from being
/// skipped.
pub proof fn law_an_unanchored_pattern_disables_pruning(
    ps: Seq<PatternView>,
    i: int,
    rel: Seq<u8>,
)
    requires
        0 <= i < ps.len(),
        is_unanchored(ps[i]),
    ensures
        prune_of(ps).can_contain(rel),
{
}

/// Nothing in a git directory is ever selected.
pub proof fn law_git_directories_are_never_selected_from(
    ps: Seq<PatternView>,
    prune: Prune,
    node: Node,
    name: Seq<u8>,
    prefix: Seq<u8>,
    inherited: bool,
    path: Seq<u8>,
)
    requires
        node_selects(ps, prune, node, name, prefix, inherited, path),
        is_rel(prefix),
        is_name(name),
        node.has_names(),
    ensures
        segments(prefix).len() < segments(path).len(),
        segments(prefix).is_prefix_of(segments(path)),
        forall|k: int|
            segments(prefix).len() <= k < segments(path).len() ==> !is_dot_git(
                #[trigger] segments(path)[k],
            ),
    decreases node,
{
    let rel = rel_of(prefix, name);
    lemma_segments_of_entry(prefix, name);
    let above = segments(prefix);
    let here = segments(rel);
    assert(above =~= here.subrange(0, above.len() as int));
    match node {
        Node::Dir(entries) => {
            let state = included(ps, rel, true, inherited);
            let i = choose|i: int|
                0 <= i < entries.len() && node_selects(
                    ps,
                    prune,
                    (#[trigger] entries[i]).1,
                    entries[i].0,
                    rel,
                    state,
                    path,
                );
            law_git_directories_are_never_selected_from(
                ps,
                prune,
                entries[i].1,
                entries[i].0,
                rel,
                state,
                path,
            );
            let all = segments(path);
            assert forall|k: int| 0 <= k < here.len() implies all[k] == here[k] by {
                assert(all.subrange(0, here.len() as int)[k] == here[k]);
            }
            assert(above =~= all.subrange(0, above.len() as int));
        },
        _ => {},
    }
}

/// Without patterns nothing is selected.
pub proof fn law_no_patterns_select_nothing(
    prune: Prune,
    node: Node,
    name: Seq<u8>,
    prefix: Seq<u8>,
    path: Seq<u8>,
)
    ensures
        !node_selects(Seq::empty(), prune, node, name, prefix, false, path),
    decreases node,
{
    let ps = Seq::<PatternView>::empty();
    let rel = rel_of(prefix, name);
    match node {
        Node::Dir(entries) => {
            assert forall|i: int| 0 <= i < entries.len() implies !node_selects(
                ps,
                prune,
                (#[trigger] entries[i]).1,
                entries[i].0,
                rel,
                false,
                path,
            ) by {
                law_no_patterns_select_nothing(prune, entries[i].1, entries[i].0, rel, path);
            }
        },
        _ => {},
    }
}

/// A directory that a walk has yet to look at, with what is in it.
pub struct Frame {
    pub rel: Seq<u8>,
    pub included: bool,
    pub entries: Seq<(Seq<u8>, Node)>,
}

/// A walk at some point: what it has selected, and what it has yet to look at.
pub struct WalkState {
    pub out: Seq<Seq<u8>>,
    pub frames: Seq<Frame>,
}

/// The directories that looking at `entries` adds, as frames.
pub open spec fn frames_of(
    ps: Seq<PatternView>,
    prune: Prune,
    entries: Seq<(Seq<u8>, Node)>,
    prefix: Seq<u8>,
    inherited: bool,
) -> Seq<Frame>
    decreases entries.len(),
{
    if entries.len() == 0 {
        Seq::empty()
    } else {
        let later = frames_of(ps, prune, entries.skip(1), prefix, inherited);
        let rel = rel_of(prefix, entries[0].0);
        let state = included(ps, rel, true, inherited);
        match entries[0].1 {
            Node::Dir(inner) => if !is_dot_git(entries[0].0) && (state || prune.can_contain(rel)) {
                later.push(Frame { rel, included: state, entries: inner })
            } else {
                later
            },
            _ => later,
        }
    }
}

/// Whether one call of [`Walk::visit`], with the entries that the directory
/// holds, leads from `a` to `b`.
pub open spec fn is_step(ps: Seq<PatternView>, prune: Prune, a: WalkState, b: WalkState) -> bool {
    a.frames.len() > 0 && {
        let top = a.frames.last();
        let visit = visit_of(ps, prune, listed(top.entries), top.rel, top.included);
        &&& b.out == a.out + visit.out
        &&& b.frames == a.frames.drop_last() + frames_of(
            ps,
            prune,
            top.entries,
            top.rel,
            top.included,
        )
    }
}

/// Whether a walk has selected `path` or has yet to.
pub open spec fn will_select(
    ps: Seq<PatternView>,
    prune: Prune,
    w: WalkState,
    path: Seq<u8>,
) -> bool {
    w.out.contains(path) || exists|i: int|
        0 <= i < w.frames.len() && frame_selects(ps, prune, #[trigger] w.frames[i], path)
}

/// Whether a walk selects `path` in a directory.
pub open spec fn frame_selects(
    ps: Seq<PatternView>,
    prune: Prune,
    frame: Frame,
    path: Seq<u8>,
) -> bool {
    selects(ps, prune, frame.entries, frame.rel, frame.included, path)
}

/// What [`Walk::visit`] leaves pending are the directories of the frames that
/// the step adds, in the same order.
pub proof fn law_a_visit_is_a_step(
    ps: Seq<PatternView>,
    prune: Prune,
    entries: Seq<(Seq<u8>, Node)>,
    prefix: Seq<u8>,
    inherited: bool,
)
    ensures
        ({
            let dirs = visit_of(ps, prune, listed(entries), prefix, inherited).dirs;
            let frames = frames_of(ps, prune, entries, prefix, inherited);
            &&& dirs.len() == frames.len()
            &&& forall|i: int|
                0 <= i < dirs.len() ==> (#[trigger] dirs[i]) == (frames[i].rel, frames[i].included)
        }),
    decreases entries.len(),
{
    if entries.len() > 0 {
        assert(listed(entries).skip(1) =~= listed(entries.skip(1)));
        law_a_visit_is_a_step(ps, prune, entries.skip(1), prefix, inherited);
    }
}

proof fn lemma_visit_selects(
    ps: Seq<PatternView>,
    prune: Prune,
    entries: Seq<(Seq<u8>, Node)>,
    prefix: Seq<u8>,
    inherited: bool,
    path: Seq<u8>,
)
    ensures
        selects(ps, prune, entries, prefix, inherited, path) <==> (visit_of(
            ps,
            prune,
            listed(entries),
            prefix,
            inherited,
        ).out.contains(path) || exists|i: int|
            0 <= i < frames_of(ps, prune, entries, prefix, inherited).len() && frame_selects(
                ps,
                prune,
                #[trigger] frames_of(ps, prune, entries, prefix, inherited)[i],
                path,
            )),
    decreases entries.len(),
{
    if entries.len() > 0 {
        let rest = entries.skip(1);
        let here = listed(entries);
        assert(here.skip(1) =~= listed(rest));
        lemma_visit_selects(ps, prune, rest, prefix, inherited, path);
        let out1 = visit_of(ps, prune, listed(rest), prefix, inherited).out;
        let out = visit_of(ps, prune, here, prefix, inherited).out;
        let frames1 = frames_of(ps, prune, rest, prefix, inherited);
        let frames = frames_of(ps, prune, entries, prefix, inherited);
        let (name, node) = entries[0];
        let rel = rel_of(prefix, name);
        let first = node_selects(ps, prune, node, name, prefix, inherited, path);
        // Either the first entry selects the path, or one behind it does.
        assert(selects(ps, prune, entries, prefix, inherited, path) <==> (first || selects(
            ps,
            prune,
            rest,
            prefix,
            inherited,
            path,
        ))) by {
            if selects(ps, prune, rest, prefix, inherited, path) {
                let i = choose|i: int|
                    0 <= i < rest.len() && node_selects(
                        ps,
                        prune,
                        (#[trigger] rest[i]).1,
                        rest[i].0,
                        prefix,
                        inherited,
                        path,
                    );
                assert(entries[i + 1] == rest[i]);
            }
            if selects(ps, prune, entries, prefix, inherited, path) && !first {
                let i = choose|i: int|
                    0 <= i < entries.len() && node_selects(
                        ps,
                        prune,
                        (#[trigger] entries[i]).1,
                        entries[i].0,
                        prefix,
                        inherited,
                        path,
                    );
                assert(rest[i - 1] == entries[i]);
            }
            if first {
                assert(node_selects(
                    ps,
                    prune,
                    entries[0].1,
                    entries[0].0,
                    prefix,
                    inherited,
                    path,
                ));
            }
        }
        // The paths and the frames grow by what the first entry gives.
        assert forall|x: Seq<u8>| out1.contains(x) implies out.contains(x) by {
            let k = choose|k: int| 0 <= k < out1.len() && out1[k] == x;
            assert(out[k] == x);
        }
        assert(frames.len() >= frames1.len());
        assert forall|i: int| 0 <= i < frames1.len() implies #[trigger] frames[i] == frames1[i] by {}
        match node {
            Node::Dir(inner) => {
                assert(out == out1);
                if frames.len() > frames1.len() {
                    let new = frames[frames1.len() as int];
                    assert(frame_selects(ps, prune, new, path) <==> first);
                } else {
                    assert(!first);
                }
            },
            Node::Other => {
                assert(!first);
                assert(out == out1 && frames == frames1);
            },
            _ => {
                assert(frames == frames1);
                if out.len() > out1.len() {
                    assert(out == out1.push(rel));
                    assert(out[out1.len() as int] == rel);
                    assert(first <==> path == rel);
                    if out.contains(path) && path != rel {
                        let k = choose|k: int| 0 <= k < out.len() && out[k] == path;
                        assert(out1[k] == path);
                    }
                } else {
                    assert(!first);
                }
            },
        }
        if exists|i: int|
            0 <= i < frames1.len() && frame_selects(ps, prune, #[trigger] frames1[i], path) {
            let i = choose|i: int|
                0 <= i < frames1.len() && frame_selects(ps, prune, #[trigger] frames1[i], path);
            assert(frame_selects(ps, prune, frames[i], path));
        }
        if exists|i: int|
            0 <= i < frames.len() && frame_selects(ps, prune, #[trigger] frames[i], path) {
            let i = choose|i: int|
                0 <= i < frames.len() && frame_selects(ps, prune, #[trigger] frames[i], path);
            if i < frames1.len() {
                assert(frame_selects(ps, prune, frames1[i], path));
            }
        }
    }
}

proof fn lemma_step_keeps(
    ps: Seq<PatternView>,
    prune: Prune,
    a: WalkState,
    b: WalkState,
    path: Seq<u8>,
)
    requires
        is_step(ps, prune, a, b),
    ensures
        will_select(ps, prune, a, path) == will_select(ps, prune, b, path),
{
    let top = a.frames.last();
    let n = a.frames.len() - 1;
    let visit = visit_of(ps, prune, listed(top.entries), top.rel, top.included);
    let added = frames_of(ps, prune, top.entries, top.rel, top.included);
    lemma_visit_selects(ps, prune, top.entries, top.rel, top.included, path);
    assert(a.frames[n] == top);
    assert(b.out.contains(path) <==> (a.out.contains(path) || visit.out.contains(path))) by {
        if a.out.contains(path) {
            let k = choose|k: int| 0 <= k < a.out.len() && a.out[k] == path;
            assert(b.out[k] == path);
        }
        if visit.out.contains(path) {
            let k = choose|k: int| 0 <= k < visit.out.len() && visit.out[k] == path;
            assert(b.out[a.out.len() + k] == path);
        }
        if b.out.contains(path) {
            let k = choose|k: int| 0 <= k < b.out.len() && b.out[k] == path;
            if k < a.out.len() {
                assert(a.out[k] == path);
            } else {
                assert(visit.out[k - a.out.len()] == path);
            }
        }
    }
    if will_select(ps, prune, a, path) && !b.out.contains(path) {
        let i = choose|i: int|
            0 <= i < a.frames.len() && frame_selects(ps, prune, #[trigger] a.frames[i], path);
        if i < n {
            assert(b.frames[i] == a.frames[i]);
        } else {
            assert(frame_selects(ps, prune, top, path));
            let k = choose|k: int|
                0 <= k < added.len() && frame_selects(ps, prune, #[trigger] added[k], path);
            assert(b.frames[n + k] == added[k]);
        }
    }
    if will_select(ps, prune, b, path) && !a.out.contains(path) {
        if !visit.out.contains(path) {
            let i = choose|i: int|
                0 <= i < b.frames.len() && frame_selects(ps, prune, #[trigger] b.frames[i], path);
            if i < n {
                assert(a.frames[i] == b.frames[i]);
            } else {
                assert(added[i - n] == b.frames[i]);
                assert(frame_selects(ps, prune, added[i - n], path));
            }
        }
        assert(will_select(ps, prune, a, path)) by {
            if visit.out.contains(path) || frame_selects(ps, prune, top, path) {
                assert(frame_selects(ps, prune, a.frames[n], path));
            }
        }
    }
}

/// A walk that is done has selected exactly the paths that a walk through
/// everything selects: it starts at the root, each of its steps is a visit of
/// the directory that is next, with the entries that it holds, and nothing is
/// left to look at.
pub proof fn law_a_finished_walk_holds_the_selection(
    ps: Seq<PatternView>,
    root: Seq<(Seq<u8>, Node)>,
    states: Seq<WalkState>,
    path: Seq<u8>,
)
    requires
        all_well_parsed(ps),
        Node::Dir(root).has_names(),
        states.len() > 0,
        states[0].out == Seq::<Seq<u8>>::empty(),
        states[0].frames == seq![
            Frame { rel: Seq::empty(), included: false, entries: root },
        ],
        forall|i: int|
            0 <= i < states.len() - 1 ==> is_step(
                ps,
                prune_of(ps),
                #[trigger] states[i],
                states[i + 1],
            ),
        states.last().frames.len() == 0,
    ensures
        states.last().out.contains(path) <==> selects(
            ps,
            nothing_pruned(),
            root,
            Seq::empty(),
            false,
            path,
        ),
{
    let prune = prune_of(ps);
    lemma_run(ps, prune, states, states.len() - 1, path);
    law_pruning_never_changes_the_selection(ps, root, path);
    let first = states[0];
    assert(will_select(ps, prune, first, path) <==> selects(
        ps,
        prune,
        root,
        Seq::empty(),
        false,
        path,
    )) by {
        if selects(ps, prune, root, Seq::empty(), false, path) {
            assert(frame_selects(ps, prune, first.frames[0], path));
        }
    }
}

proof fn lemma_run(
    ps: Seq<PatternView>,
    prune: Prune,
    states: Seq<WalkState>,
    n: int,
    path: Seq<u8>,
)
    requires
        0 <= n < states.len(),
        forall|i: int|
            0 <= i < states.len() - 1 ==> is_step(ps, prune, #[trigger] states[i], states[i + 1]),
    ensures
        will_select(ps, prune, states[0], path) == will_select(ps, prune, states[n], path),
    decreases n,
{
    if n > 0 {
        lemma_run(ps, prune, states, n - 1, path);
        assert(is_step(ps, prune, states[n - 1], states[n - 1 + 1]));
        lemma_step_keeps(ps, prune, states[n - 1], states[n], path);
    }
}

/// The path that names lead to, one in the other, from the root.
pub open spec fn path_at(names: Seq<Seq<u8>>) -> Seq<u8>
    decreases names.len(),
{
    if names.len() == 0 {
        Seq::empty()
    } else if names.len() == 1 {
        names[0]
    } else {
        path_at(names.drop_last()) + seq![47u8] + names.last()
    }
}

/// Whether a file or a symbolic link is where names lead to, one in the other, from
/// a directory that holds `entries`.
pub open spec fn holds_file(entries: Seq<(Seq<u8>, Node)>, names: Seq<Seq<u8>>) -> bool
    decreases names.len(),
{
    names.len() > 0 && exists|i: int|
        0 <= i < entries.len() && (#[trigger] entries[i]).0 == names[0] && (if names.len() == 1 {
            entries[i].1 is File || entries[i].1 is Symlink
        } else {
            entries[i].1 matches Node::Dir(inner) && holds_file(inner, names.skip(1))
        })
}

/// Whether one of the names is that of a git directory.
pub open spec fn leads_into_git(names: Seq<Seq<u8>>) -> bool {
    exists|k: int| 0 <= k < names.len() && #[trigger] names[k] == seq![46u8, 103, 105, 116]
}

/// Whether a pattern matches where the first `k` of the names lead to: directories,
/// but for the last, which is one where `dir` says so.
pub open spec fn matches_above(
    p: PatternView,
    names: Seq<Seq<u8>>,
    dir: bool,
    k: int,
) -> bool {
    pattern_matches(p, path_at(names.take(k)), k < names.len() || dir)
}

/// Whether `ps[i]` has the last word on where names lead to: it is the last to match
/// the first `k` of them, and nothing matches more of them.
pub open spec fn has_last_word(
    ps: Seq<PatternView>,
    names: Seq<Seq<u8>>,
    dir: bool,
    k: int,
    i: int,
) -> bool {
    &&& 0 < k <= names.len()
    &&& 0 <= i < ps.len()
    &&& matches_above(ps[i], names, dir, k)
    &&& forall|j: int| i < j < ps.len() ==> !matches_above(#[trigger] ps[j], names, dir, k)
    &&& forall|m: int, j: int|
        k < m <= names.len() && 0 <= j < ps.len() ==> !#[trigger] matches_above(
            ps[j],
            names,
            dir,
            m,
        )
}

/// Whether the nearest of a path and the directories above it that a pattern matches
/// is included by the last pattern that matches it.
pub open spec fn nearest_match_includes(
    ps: Seq<PatternView>,
    names: Seq<Seq<u8>>,
    dir: bool,
) -> bool {
    exists|k: int, i: int| #[trigger] has_last_word(ps, names, dir, k, i) && !ps[i].negative
}

/// The state that a walk carries to where names lead to.
spec fn carried(ps: Seq<PatternView>, names: Seq<Seq<u8>>, dir: bool) -> bool
    decreases names.len(),
{
    if names.len() == 0 {
        false
    } else {
        included(ps, path_at(names), dir, carried(ps, names.drop_last(), true))
    }
}

proof fn lemma_carried(ps: Seq<PatternView>, names: Seq<Seq<u8>>, dir: bool)
    ensures
        carried(ps, names, dir) == nearest_match_includes(ps, names, dir),
    decreases names.len(),
{
    if names.len() > 0 {
        let n = names.len() as int;
        let above = names.drop_last();
        let here = path_at(names);
        lemma_carried(ps, above, true);
        assert(names.take(n) =~= names);
        assert forall|m: int| 0 <= m < n implies #[trigger] names.take(m) == above.take(m) by {
            assert(names.take(m) =~= above.take(m));
        }
        assert forall|p: PatternView, m: int| 0 <= m < n implies #[trigger] matches_above(
            p,
            names,
            dir,
            m,
        ) == matches_above(p, above, true, m) by {
            assert(names.take(m) == above.take(m));
        }
        if exists|i: int| #[trigger] decides(ps, i, here, dir) {
            let i = choose|i: int| #[trigger] decides(ps, i, here, dir);
            law_the_last_match_wins(ps, here, dir);
            assert(matches_above(ps[i], names, dir, n));
            assert forall|j: int| i < j < ps.len() implies !matches_above(
                #[trigger] ps[j],
                names,
                dir,
                n,
            ) by {}
            assert(has_last_word(ps, names, dir, n, i));
            if nearest_match_includes(ps, names, dir) {
                let (k, j) = choose|k: int, j: int| #[trigger]
                    has_last_word(ps, names, dir, k, j) && !ps[j].negative;
                if k < n {
                    assert(!matches_above(ps[i], names, dir, n));
                } else if j < i {
                    assert(!matches_above(ps[i], names, dir, n));
                } else if j > i {
                    assert(!matches_above(ps[j], names, dir, n));
                }
                assert(k == n && j == i);
            }
        } else {
            lemma_a_match_decides(ps, here, dir);
            law_the_last_match_wins(ps, here, dir);
            assert forall|k: int, i: int| has_last_word(ps, names, dir, k, i) == #[trigger]
            has_last_word(ps, above, true, k, i) by {
                if has_last_word(ps, names, dir, k, i) {
                    assert(k < n);
                    assert forall|m: int, j: int|
                        k < m <= above.len() && 0 <= j < ps.len() implies !#[trigger] matches_above(
                        ps[j],
                        above,
                        true,
                        m,
                    ) by {
                        assert(!matches_above(ps[j], names, dir, m));
                    }
                    assert forall|j: int| i < j < ps.len() implies !matches_above(
                        #[trigger] ps[j],
                        above,
                        true,
                        k,
                    ) by {
                        assert(!matches_above(ps[j], names, dir, k));
                    }
                    assert(matches_above(ps[i], names, dir, k));
                }
                if has_last_word(ps, above, true, k, i) {
                    assert forall|m: int, j: int|
                        k < m <= names.len() && 0 <= j < ps.len() implies !#[trigger] matches_above(
                        ps[j],
                        names,
                        dir,
                        m,
                    ) by {
                        if m < n {
                            assert(!matches_above(ps[j], above, true, m));
                        }
                    }
                    assert forall|j: int| i < j < ps.len() implies !matches_above(
                        #[trigger] ps[j],
                        names,
                        dir,
                        k,
                    ) by {
                        assert(!matches_above(ps[j], above, true, k));
                    }
                    assert(matches_above(ps[i], above, true, k));
                    assert(matches_above(ps[i], names, dir, k));
                }
            }
            if nearest_match_includes(ps, names, dir) {
                let (k, i) = choose|k: int, i: int| #[trigger]
                    has_last_word(ps, names, dir, k, i) && !ps[i].negative;
                assert(has_last_word(ps, above, true, k, i));
            }
            if nearest_match_includes(ps, above, true) {
                let (k, i) = choose|k: int, i: int| #[trigger]
                    has_last_word(ps, above, true, k, i) && !ps[i].negative;
                assert(has_last_word(ps, names, dir, k, i));
            }
        }
    }
}

proof fn lemma_path_of_entry(above: Seq<Seq<u8>>, name: Seq<u8>)
    requires
        forall|k: int| 0 <= k < above.len() ==> is_name(#[trigger] above[k]),
        is_name(name),
    ensures
        path_at(above.push(name)) == rel_of(path_at(above), name),
        segments(path_at(above)) == above,
        segments(path_at(above.push(name))) == above.push(name),
    decreases above.len(),
{
    assert(above.push(name).drop_last() =~= above);
    if above.len() > 0 {
        let front = above.drop_last();
        assert(is_name(above[above.len() - 1]));
        assert forall|k: int| 0 <= k < front.len() implies is_name(#[trigger] front[k]) by {
            assert(front[k] == above[k]);
        }
        lemma_path_of_entry(front, above.last());
        assert(front.push(above.last()) =~= above);
        lemma_segments_of_entry(path_at(front), above.last());
        assert(path_at(above).len() > 0);
        assert(path_at(above.push(name)) =~= path_at(above).push(47) + name);
    } else {
        assert(segments(path_at(above)) =~= above);
    }
    lemma_segments_of_entry(path_at(above), name);
}

/// What a walk selects below a directory is a file there that the state carried to it
/// includes.
proof fn lemma_selected_is_held(
    ps: Seq<PatternView>,
    node: Node,
    name: Seq<u8>,
    above: Seq<Seq<u8>>,
    path: Seq<u8>,
) -> (below: Seq<Seq<u8>>)
    requires
        forall|k: int| 0 <= k < above.len() ==> is_name(#[trigger] above[k]),
        is_name(name),
        node.has_names(),
        node_selects(
            ps,
            nothing_pruned(),
            node,
            name,
            path_at(above),
            carried(ps, above, true),
            path,
        ),
    ensures
        below.len() > 0,
        below[0] == name,
        forall|k: int| 0 <= k < below.len() ==> is_name(#[trigger] below[k]),
        !leads_into_git(below),
        holds_file(seq![(name, node)], below),
        path == path_at(above + below),
        carried(ps, above + below, false),
    decreases node,
{
    let here = above.push(name);
    lemma_path_of_entry(above, name);
    assert(here.drop_last() =~= above);
    let one = seq![(name, node)];
    assert(one[0] == (name, node));
    match node {
        Node::Dir(entries) => {
            let state = included(ps, path_at(here), true, carried(ps, above, true));
            assert(state == carried(ps, here, true));
            let i = choose|i: int|
                0 <= i < entries.len() && node_selects(
                    ps,
                    nothing_pruned(),
                    (#[trigger] entries[i]).1,
                    entries[i].0,
                    path_at(here),
                    state,
                    path,
                );
            let rest = lemma_selected_is_held(ps, entries[i].1, entries[i].0, here, path);
            let below = seq![name] + rest;
            assert(above + below =~= here + rest);
            assert(below.skip(1) =~= rest);
            lemma_holds_one(entries, i, rest);
            assert forall|k: int| 0 <= k < below.len() implies is_name(#[trigger] below[k])
                && below[k] != seq![46u8, 103, 105, 116] by {
                if k > 0 {
                    assert(below[k] == rest[k - 1]);
                    assert(is_name(rest[k - 1]));
                }
            }
            below
        },
        _ => {
            let below = seq![name];
            assert(above + below =~= here);
            below
        },
    }
}

proof fn lemma_holds_one(entries: Seq<(Seq<u8>, Node)>, i: int, names: Seq<Seq<u8>>)
    requires
        0 <= i < entries.len(),
        holds_file(seq![entries[i]], names),
    ensures
        holds_file(entries, names),
{
    let one = seq![entries[i]];
    assert(one[0] == entries[i]);
    assert(entries[i].0 == names[0]);
}

/// A file that the state carried to it includes is selected.
proof fn lemma_held_is_selected(
    ps: Seq<PatternView>,
    entries: Seq<(Seq<u8>, Node)>,
    above: Seq<Seq<u8>>,
    below: Seq<Seq<u8>>,
)
    requires
        forall|k: int| 0 <= k < above.len() ==> is_name(#[trigger] above[k]),
        Node::Dir(entries).has_names(),
        holds_file(entries, below),
        !leads_into_git(below),
        carried(ps, above + below, false),
    ensures
        selects(
            ps,
            nothing_pruned(),
            entries,
            path_at(above),
            carried(ps, above, true),
            path_at(above + below),
        ),
    decreases below.len(),
{
    let i = choose|i: int|
        0 <= i < entries.len() && (#[trigger] entries[i]).0 == below[0] && (if below.len() == 1 {
            entries[i].1 is File || entries[i].1 is Symlink
        } else {
            entries[i].1 matches Node::Dir(inner) && holds_file(inner, below.skip(1))
        });
    lemma_names_of_entries(entries, i);
    let (name, node) = entries[i];
    let here = above.push(name);
    lemma_path_of_entry(above, name);
    assert(here.drop_last() =~= above);
    assert(below[0] != seq![46u8, 103, 105, 116]);
    if below.len() == 1 {
        assert(above + below =~= here);
    } else {
        let rest = below.skip(1);
        assert(above + below =~= here + rest);
        assert forall|k: int| 0 <= k < rest.len() implies #[trigger] rest[k] != seq![
            46u8,
            103,
            105,
            116,
        ] by {
            assert(rest[k] == below[k + 1]);
        }
        match node {
            Node::Dir(inner) => {
                lemma_held_is_selected(ps, inner, here, rest);
            },
            _ => {},
        }
    }
}

/// A file is selected exactly where the nearest of it and the directories above it
/// that any pattern matches is included by the last pattern that matches that one. So
/// a directory that is carved out takes along all that is in it, whatever the
/// directory above it is, unless something nearer is included again.
pub proof fn law_the_nearest_match_decides(
    ps: Seq<PatternView>,
    root: Seq<(Seq<u8>, Node)>,
    names: Seq<Seq<u8>>,
)
    requires
        Node::Dir(root).has_names(),
        holds_file(root, names),
        !leads_into_git(names),
    ensures
        selects(ps, nothing_pruned(), root, Seq::empty(), false, path_at(names))
            <==> nearest_match_includes(ps, names, false),
{
    let none = Seq::<Seq<u8>>::empty();
    let path = path_at(names);
    assert(none + names =~= names);
    lemma_carried(ps, names, false);
    if carried(ps, names, false) {
        lemma_held_is_selected(ps, root, none, names);
    }
    if selects(ps, nothing_pruned(), root, Seq::empty(), false, path) {
        let found = lemma_selected_in(ps, root, path);
        lemma_held_names(root, names);
        lemma_names_of_path(names);
        lemma_names_of_path(found);
    }
}

proof fn lemma_selected_in(
    ps: Seq<PatternView>,
    root: Seq<(Seq<u8>, Node)>,
    path: Seq<u8>,
) -> (names: Seq<Seq<u8>>)
    requires
        Node::Dir(root).has_names(),
        selects(ps, nothing_pruned(), root, Seq::empty(), false, path),
    ensures
        names.len() > 0,
        forall|k: int| 0 <= k < names.len() ==> is_name(#[trigger] names[k]),
        !leads_into_git(names),
        holds_file(root, names),
        path == path_at(names),
        carried(ps, names, false),
{
    let none = Seq::<Seq<u8>>::empty();
    let i = choose|i: int|
        0 <= i < root.len() && node_selects(
            ps,
            nothing_pruned(),
            (#[trigger] root[i]).1,
            root[i].0,
            Seq::empty(),
            false,
            path,
        );
    lemma_names_of_entries(root, i);
    assert(path_at(none) =~= Seq::<u8>::empty());
    let names = lemma_selected_is_held(ps, root[i].1, root[i].0, none, path);
    assert(none + names =~= names);
    assert(seq![(root[i].0, root[i].1)] =~= seq![root[i]]);
    lemma_holds_one(root, i, names);
    names
}

proof fn lemma_held_names(entries: Seq<(Seq<u8>, Node)>, names: Seq<Seq<u8>>)
    requires
        Node::Dir(entries).has_names(),
        holds_file(entries, names),
    ensures
        forall|k: int| 0 <= k < names.len() ==> is_name(#[trigger] names[k]),
    decreases names.len(),
{
    let i = choose|i: int|
        0 <= i < entries.len() && (#[trigger] entries[i]).0 == names[0] && (if names.len() == 1 {
            entries[i].1 is File || entries[i].1 is Symlink
        } else {
            entries[i].1 matches Node::Dir(inner) && holds_file(inner, names.skip(1))
        });
    lemma_names_of_entries(entries, i);
    if names.len() > 1 {
        match entries[i].1 {
            Node::Dir(inner) => {
                lemma_held_names(inner, names.skip(1));
                assert forall|k: int| 0 <= k < names.len() implies is_name(#[trigger] names[k]) by {
                    if k > 0 {
                        assert(names.skip(1)[k - 1] == names[k]);
                    }
                }
            },
            _ => {},
        }
    }
}

proof fn lemma_names_of_path(names: Seq<Seq<u8>>)
    requires
        names.len() > 0,
        forall|k: int| 0 <= k < names.len() ==> is_name(#[trigger] names[k]),
    ensures
        segments(path_at(names)) == names,
{
    let front = names.drop_last();
    assert(is_name(names[names.len() - 1]));
    lemma_path_of_entry(front, names.last());
    assert(front.push(names.last()) =~= names);
}

/// A finished walk through a working tree has selected exactly the files and symbolic
/// links of the tree that lie in no git directory and that the nearest match
/// includes.
pub proof fn law_a_finished_walk_goes_by_the_nearest_match(
    ps: Seq<PatternView>,
    root: Seq<(Seq<u8>, Node)>,
    states: Seq<WalkState>,
    path: Seq<u8>,
)
    requires
        all_well_parsed(ps),
        Node::Dir(root).has_names(),
        states.len() > 0,
        states[0].out == Seq::<Seq<u8>>::empty(),
        states[0].frames == seq![
            Frame { rel: Seq::empty(), included: false, entries: root },
        ],
        forall|i: int|
            0 <= i < states.len() - 1 ==> is_step(
                ps,
                prune_of(ps),
                #[trigger] states[i],
                states[i + 1],
            ),
        states.last().frames.len() == 0,
    ensures
        states.last().out.contains(path) <==> exists|names: Seq<Seq<u8>>| #[trigger]
            holds_file(root, names) && !leads_into_git(names) && path == path_at(names)
                && nearest_match_includes(ps, names, false),
{
    law_a_finished_walk_holds_the_selection(ps, root, states, path);
    if states.last().out.contains(path) {
        let names = lemma_selected_in(ps, root, path);
        law_the_nearest_match_decides(ps, root, names);
        assert(holds_file(root, names));
    }
    if exists|names: Seq<Seq<u8>>| #[trigger]
        holds_file(root, names) && !leads_into_git(names) && path == path_at(names)
            && nearest_match_includes(ps, names, false) {
        let names = choose|names: Seq<Seq<u8>>| #[trigger]
            holds_file(root, names) && !leads_into_git(names) && path == path_at(names)
                && nearest_match_includes(ps, names, false);
        law_the_nearest_match_decides(ps, root, names);
    }
}

proof fn lemma_verdict_of_sum(
    a: Seq<PatternView>,
    b: Seq<PatternView>,
    rel: Seq<u8>,
    is_dir: bool,
)
    ensures
        verdict(a + b, rel, is_dir) == if verdict(b, rel, is_dir) is Some {
            verdict(b, rel, is_dir)
        } else {
            verdict(a, rel, is_dir)
        },
    decreases b.len(),
{
    if b.len() == 0 {
        assert(a + b =~= a);
    } else {
        assert((a + b).drop_last() =~= a + b.drop_last());
        lemma_verdict_of_sum(a, b.drop_last(), rel, is_dir);
    }
}

/// A later file of patterns overrides the earlier ones wherever it says anything:
/// the project's comes first, then the user's, then the further ones in the order
/// in which they were given.
pub proof fn law_later_files_override_earlier_ones(
    project: Option<PatternFile>,
    user: PatternFile,
    all: Seq<PatternFile>,
    last: PatternFile,
    rel: Seq<u8>,
    is_dir: bool,
)
    ensures
        ({
            let says = |files: Seq<LayerView>| verdict(flat(files), rel, is_dir);
            let alone = |file: PatternFile| verdict(parsed_patterns(file.bytes@), rel, is_dir);
            &&& forall|any: Option<PatternFile>|
                #![trigger layers_of(project, any, all.push(last))]
                says(layers_of(project, any, all.push(last))) == if alone(last) is Some {
                    alone(last)
                } else {
                    says(layers_of(project, any, all))
                }
            &&& says(layers_of(project, Some(user), Seq::empty())) == if alone(user) is Some {
                alone(user)
            } else {
                says(layers_of(project, None, Seq::empty()))
            }
            &&& says(layers_of(project, None, Seq::empty())) == if let Some(file) = project {
                alone(file)
            } else {
                None
            }
        }),
{
    assert forall|any: Option<PatternFile>|
        #![trigger layers_of(project, any, all.push(last))]
        verdict(flat(layers_of(project, any, all.push(last))), rel, is_dir) == if verdict(
            parsed_patterns(last.bytes@),
            rel,
            is_dir,
        ) is Some {
            verdict(parsed_patterns(last.bytes@), rel, is_dir)
        } else {
            verdict(flat(layers_of(project, any, all)), rel, is_dir)
        } by {
        let more = layers_of(project, any, all.push(last));
        assert(more =~= layers_of(project, any, all).push(layer_of(last)));
        assert(more.drop_last() =~= layers_of(project, any, all));
        lemma_verdict_of_sum(
            flat(layers_of(project, any, all)),
            parsed_patterns(last.bytes@),
            rel,
            is_dir,
        );
    }
    let none = layers_of(project, None, Seq::empty());
    let both = layers_of(project, Some(user), Seq::empty());
    assert(both =~= none.push(layer_of(user)));
    assert(both.drop_last() =~= none);
    lemma_verdict_of_sum(flat(none), parsed_patterns(user.bytes@), rel, is_dir);
    if let Some(file) = project {
        assert(none =~= seq![layer_of(file)]);
        assert(none.drop_last() =~= Seq::<LayerView>::empty());
        assert(none.last() == layer_of(file));
        assert(flat(none.drop_last()) =~= Seq::<PatternView>::empty());
        assert(flat(none) == flat(none.drop_last()) + none.last().patterns);
        assert(flat(none) =~= parsed_patterns(file.bytes@));
    } else {
        assert(none =~= Seq::<LayerView>::empty());
    }
}

/// The user's file is the one that is named, if one is; else it lies in the
/// directory of the user's configuration, if that is named; else in the usual
/// place below the home directory. An empty name counts as none.
pub proof fn law_the_users_file_is_named_or_in_its_place(
    named: Option<Seq<u8>>,
    xdg: Option<Seq<u8>>,
    home: Option<Seq<u8>>,
    dir: Seq<u8>,
)
    requires
        dir.len() > 0,
        dir.last() != 47,
    ensures
        named matches Some(path) ==> path.len() > 0 ==> user_include_of(named, xdg, home) == named,
        (named matches Some(path) ==> path.len() == 0) ==> {
            &&& user_include_of(named, Some(dir), home) == Some(
                dir + encode_utf8("/git-full-send/include"@),
            )
            &&& (xdg matches Some(path) ==> path.len() == 0) ==> user_include_of(
                named,
                xdg,
                Some(dir),
            ) == Some(dir + encode_utf8("/.config/git-full-send/include"@))
            &&& (xdg matches Some(path) ==> path.len() == 0) ==> user_include_of(
                named,
                xdg,
                None,
            ) is None
        },
{
    reveal_strlit("git-full-send");
    reveal_strlit("include");
    reveal_strlit(".config");
    reveal_strlit("/git-full-send/include");
    reveal_strlit("/.config/git-full-send/include");
    vstd::utf8::is_ascii_chars_encode_utf8("git-full-send"@);
    vstd::utf8::is_ascii_chars_encode_utf8("include"@);
    vstd::utf8::is_ascii_chars_encode_utf8(".config"@);
    vstd::utf8::is_ascii_chars_encode_utf8("/git-full-send/include"@);
    vstd::utf8::is_ascii_chars_encode_utf8("/.config/git-full-send/include"@);
    let one = joined(dir, encode_utf8("git-full-send"@));
    let two = joined(one, encode_utf8("include"@));
    assert(one.last() != 47);
    assert(two =~= dir + encode_utf8("/git-full-send/include"@));
    let base = joined(dir, encode_utf8(".config"@));
    assert(base.last() != 47);
    let three = joined(base, encode_utf8("git-full-send"@));
    assert(three.last() != 47);
    let four = joined(three, encode_utf8("include"@));
    assert(four =~= dir + encode_utf8("/.config/git-full-send/include"@));
}

proof fn lemma_last_index_is(s: Seq<u8>, b: u8, i: int)
    requires
        -1 <= i < s.len(),
        i >= 0 ==> s[i] == b,
        forall|k: int| i < k < s.len() ==> #[trigger] s[k] != b,
    ensures
        last_index(s, b) == i,
    decreases s.len(),
{
    if i < s.len() - 1 {
        assert(s[s.len() - 1] != b);
        lemma_last_index_is(s.drop_last(), b, i);
    }
}

/// What a pattern says of where it can match is the directory that it spells out:
/// all of it, where it has no wildcard, and else what stands before the last slash
/// before the first wildcard.
pub proof fn law_a_pattern_spells_its_directory_out(
    p: PatternView,
    dir: Seq<u8>,
    rest: Seq<u8>,
    pos: usize,
)
    ensures
        p.first_wildcard is None ==> literal_head(p) == p.text,
        p.text == dir.push(47) + rest && p.first_wildcard == Some(pos) && dir.len() < pos
            <= p.text.len() && !rest.take(pos - dir.len() - 1).contains(47) ==> literal_head(p)
            == dir,
        p.first_wildcard == Some(pos) && pos <= p.text.len() && !p.text.take(
            pos as int,
        ).contains(47) ==> literal_head(p).len() == 0,
{
    if p.text == dir.push(47) + rest && p.first_wildcard == Some(pos) && dir.len() < pos
        <= p.text.len() && !rest.take(pos - dir.len() - 1).contains(47) {
        let head = p.text.take(pos as int);
        let n = dir.len() as int;
        assert forall|k: int| n < k < head.len() implies #[trigger] head[k] != 47 by {
            let inner = rest.take(pos - n - 1);
            assert(inner[k - n - 1] == head[k]);
            assert(inner.contains(inner[k - n - 1]));
        }
        lemma_last_index_is(head, 47, n);
        assert(p.text.take(n) =~= dir);
    }
    if p.first_wildcard == Some(pos) && pos <= p.text.len() && !p.text.take(pos as int).contains(
        47,
    ) {
        let head = p.text.take(pos as int);
        assert forall|k: int| -1 < k < head.len() implies #[trigger] head[k] != 47 by {
            assert(head.contains(head[k]));
        }
        lemma_last_index_is(head, 47, -1);
    }
}

proof fn lemma_nonempty_filters(v: Seq<Seq<u8>>)
    ensures
        nonempty(v) == v.filter(|s: Seq<u8>| s.len() > 0),
    decreases v.len(),
{
    reveal(Seq::filter);
    if v.len() > 0 {
        lemma_nonempty_filters(v.drop_last());
    }
}

/// A pattern is unanchored where it includes and spells no directory out: it can
/// match at any depth by its last name, or what it spells out has no name in it.
/// Else it can match only below the names that it spells out.
pub proof fn law_an_anchored_pattern_spells_names_out(p: PatternView)
    ensures
        prefix_of(p) is None <==> p.no_sub_dir && !p.absolute || pieces(
            literal_head(p),
            47u8,
        ).filter(|s: Seq<u8>| s.len() > 0).len() == 0,
        prefix_of(p) matches Some(names) ==> names == pieces(literal_head(p), 47u8).filter(
            |s: Seq<u8>| s.len() > 0,
        ),
        is_unanchored(p) <==> !p.negative && prefix_of(p) is None,
{
    lemma_nonempty_filters(pieces(literal_head(p), 47u8));
}

/// Whether a pattern can include something at `rel` or below it: it includes, and
/// it is unanchored, or spells out a directory on the way there or below.
pub open spec fn leads_to(p: PatternView, rel: Seq<u8>) -> bool {
    &&& !p.negative
    &&& prefix_of(p) matches Some(names) ==> names.is_prefix_of(pieces(rel, 47u8)) || pieces(
        rel,
        47u8,
    ).is_prefix_of(names)
}

/// A directory can hold a match exactly where some pattern leads there.
pub proof fn law_a_directory_is_skipped_where_no_pattern_leads(
    ps: Seq<PatternView>,
    rel: Seq<u8>,
)
    ensures
        prune_of(ps).can_contain(rel) <==> exists|i: int|
            0 <= i < ps.len() && leads_to(#[trigger] ps[i], rel),
{
    let names = pieces(rel, 47u8);
    let prune = prune_of(ps);
    if prune.can_contain(rel) {
        if prune.any_unanchored {
            let i = choose|i: int| 0 <= i < ps.len() && is_unanchored(#[trigger] ps[i]);
            assert(leads_to(ps[i], rel));
        } else {
            let k = choose|k: int|
                0 <= k < prune.prefixes.len() && compatible(#[trigger] prune.prefixes[k], names);
            let i = lemma_listed_prefix(ps, k);
            lemma_compatible(prune.prefixes[k], names);
            assert(leads_to(ps[i], rel));
        }
    }
    if exists|i: int| 0 <= i < ps.len() && leads_to(#[trigger] ps[i], rel) {
        let i = choose|i: int| 0 <= i < ps.len() && leads_to(#[trigger] ps[i], rel);
        if prefix_of(ps[i]) is None {
            assert(is_unanchored(ps[i]));
        } else {
            lemma_prefix_is_listed(ps, i);
            let k = choose|k: int|
                0 <= k < prefixes_of(ps).len() && #[trigger] prefixes_of(ps)[k] == prefix_of(
                    ps[i],
                )->0;
            lemma_compatible(prune.prefixes[k], names);
            assert(compatible(prune.prefixes[k], names));
        }
    }
}

proof fn lemma_compatible(a: Seq<Seq<u8>>, b: Seq<Seq<u8>>)
    ensures
        compatible(a, b) <==> a.is_prefix_of(b) || b.is_prefix_of(a),
{
    if compatible(a, b) {
        if a.len() <= b.len() {
            assert(a =~= b.subrange(0, a.len() as int)) by {
                assert forall|k: int| 0 <= k < a.len() implies a[k] == b.subrange(
                    0,
                    a.len() as int,
                )[k] by {
                    assert(a[k] == b[k]);
                }
            }
        } else {
            assert(b =~= a.subrange(0, b.len() as int)) by {
                assert forall|k: int| 0 <= k < b.len() implies b[k] == a.subrange(
                    0,
                    b.len() as int,
                )[k] by {
                    assert(a[k] == b[k]);
                }
            }
        }
    }
    if a.is_prefix_of(b) {
        assert forall|k: int| 0 <= k < a.len() && k < b.len() implies #[trigger] a[k] == b[k] by {
            assert(b.subrange(0, a.len() as int)[k] == b[k]);
        }
    }
    if b.is_prefix_of(a) {
        assert forall|k: int| 0 <= k < a.len() && k < b.len() implies #[trigger] a[k] == b[k] by {
            assert(a.subrange(0, b.len() as int)[k] == a[k]);
        }
    }
}

proof fn lemma_listed_prefix(ps: Seq<PatternView>, k: int) -> (i: int)
    requires
        0 <= k < prefixes_of(ps).len(),
    ensures
        0 <= i < ps.len(),
        !ps[i].negative,
        prefix_of(ps[i]) == Some(prefixes_of(ps)[k]),
    decreases ps.len(),
{
    let front = ps.drop_last();
    if k < prefixes_of(front).len() {
        lemma_listed_prefix(front, k)
    } else {
        ps.len() - 1
    }
}

/// Every entry of a directory but git directories is considered, and every
/// directory among them is entered or skipped: skipped where it is not included
/// and can hold no match.
pub proof fn law_every_entry_is_considered_once(
    ps: Seq<PatternView>,
    prune: Prune,
    entries: Seq<(Seq<u8>, FileKind)>,
    prefix: Seq<u8>,
    inherited: bool,
)
    ensures
        ({
            let visit = visit_of(ps, prune, entries, prefix, inherited);
            let considered = |e: (Seq<u8>, FileKind)| e.0 != encode_utf8(".git"@);
            let skipped = |e: (Seq<u8>, FileKind)|
                {
                    &&& e.0 != encode_utf8(".git"@)
                    &&& e.1 == FileKind::Dir
                    &&& !included(ps, rel_of(prefix, e.0), true, inherited)
                    &&& !prune.can_contain(rel_of(prefix, e.0))
                };
            let dirs = |e: (Seq<u8>, FileKind)|
                e.0 != encode_utf8(".git"@) && e.1 == FileKind::Dir;
            &&& visit.considered == how_many(entries, considered)
            &&& visit.pruned == how_many(entries, skipped)
            &&& visit.pruned + visit.dirs.len() == how_many(entries, dirs)
        }),
    decreases entries.len(),
{
    reveal_strlit(".git");
    vstd::utf8::is_ascii_chars_encode_utf8(".git"@);
    assert(encode_utf8(".git"@) =~= seq![46u8, 103, 105, 116]);
    if entries.len() > 0 {
        law_every_entry_is_considered_once(ps, prune, entries.skip(1), prefix, inherited);
    }
}

/// How many items of a sequence have a property.
pub open spec fn how_many<T>(v: Seq<T>, has: spec_fn(T) -> bool) -> nat
    decreases v.len(),
{
    if v.len() == 0 {
        0
    } else {
        how_many(v.skip(1), has) + if has(v[0]) {
            1nat
        } else {
            0nat
        }
    }
}

/// Whether the pattern at `j` of the layer at `i` is unanchored and is shown as
/// `shown`.
pub open spec fn shows(layers: Seq<LayerView>, i: int, j: int, shown: Seq<char>) -> bool {
    &&& 0 <= i < layers.len()
    &&& 0 <= j < layers[i].patterns.len()
    &&& is_unanchored(layers[i].patterns[j])
    &&& layers[i].patterns[j].display == shown
}

/// Every unanchored pattern is reported, once, however often it is written, with
/// the first of the files that it stands in.
pub proof fn law_each_unanchored_pattern_is_reported_once(
    layers: Seq<LayerView>,
    shown: Seq<char>,
    source: Seq<char>,
)
    ensures
        forall|a: int, b: int|
            0 <= a < b < unanchored_of(layers).len() ==> (#[trigger] unanchored_of(layers)[a]).0
                != (#[trigger] unanchored_of(layers)[b]).0,
        names_pattern(unanchored_of(layers), shown) <==> exists|i: int, j: int| #[trigger]
            shows(layers, i, j, shown),
        unanchored_of(layers).contains((shown, source)) ==> exists|i: int, j: int|
            #[trigger] shows(layers, i, j, shown) && layers[i].source == source && (forall|
                k: int,
                l: int,
            |
                k < i ==> !#[trigger] shows(layers, k, l, shown)),
    decreases layers.len(),
{
    if layers.len() > 0 {
        let front = layers.drop_last();
        let last = layers.last();
        let n = layers.len() - 1;
        law_each_unanchored_pattern_is_reported_once(front, shown, source);
        let before = unanchored_of(front);
        lemma_unanchored_in(before, last.source, last.patterns, shown);
        assert forall|i: int, j: int| i < n implies (#[trigger] shows(layers, i, j, shown) <==> shows(
            front,
            i,
            j,
            shown,
        )) by {
            if 0 <= i < n {
                assert(front[i] == layers[i]);
            }
        }
        let after = unanchored_of(layers);
        if names_pattern(after, shown) {
            if names_pattern(before, shown) {
                let (i, j) = choose|i: int, j: int| #[trigger] shows(front, i, j, shown);
                assert(shows(layers, i, j, shown));
            } else {
                let j = choose|j: int|
                    0 <= j < last.patterns.len() && is_unanchored(#[trigger] last.patterns[j])
                        && last.patterns[j].display == shown;
                assert(shows(layers, n, j, shown));
            }
        }
        if exists|i: int, j: int| #[trigger] shows(layers, i, j, shown) {
            let (i, j) = choose|i: int, j: int| #[trigger] shows(layers, i, j, shown);
            if i < n {
                assert(shows(front, i, j, shown));
            } else {
                assert(is_unanchored(last.patterns[j]));
            }
        }
        if after.contains((shown, source)) {
            if before.contains((shown, source)) {
                let (i, j) = choose|i: int, j: int|
                    #[trigger] shows(front, i, j, shown) && front[i].source == source && (forall|
                        k: int,
                        l: int,
                    |
                        k < i ==> !#[trigger] shows(front, k, l, shown));
                assert(shows(layers, i, j, shown));
                assert(layers[i] == front[i]);
                assert forall|k: int, l: int| k < i implies !#[trigger] shows(
                    layers,
                    k,
                    l,
                    shown,
                ) by {
                    assert(shows(layers, k, l, shown) <==> shows(front, k, l, shown));
                }
            } else {
                assert(source == last.source);
                assert(!names_pattern(before, shown));
                let j = choose|j: int|
                    0 <= j < last.patterns.len() && is_unanchored(#[trigger] last.patterns[j])
                        && last.patterns[j].display == shown;
                assert(shows(layers, n, j, shown));
                assert forall|k: int, l: int| k < n implies !#[trigger] shows(
                    layers,
                    k,
                    l,
                    shown,
                ) by {
                    assert(shows(layers, k, l, shown) <==> shows(front, k, l, shown));
                }
            }
        }
        lemma_unanchored_once(before, last.source, last.patterns);
    }
}

proof fn lemma_unanchored_in(
    found: Seq<(Seq<char>, Seq<char>)>,
    source: Seq<char>,
    ps: Seq<PatternView>,
    shown: Seq<char>,
)
    ensures
        names_pattern(unanchored_in(found, source, ps), shown) <==> names_pattern(found, shown)
            || exists|j: int|
            0 <= j < ps.len() && is_unanchored(#[trigger] ps[j]) && ps[j].display == shown,
        forall|from: Seq<char>| #[trigger]
            unanchored_in(found, source, ps).contains((shown, from)) ==> found.contains(
                (shown, from),
            ) || (from == source && !names_pattern(found, shown)),
    decreases ps.len(),
{
    if ps.len() > 0 {
        let front = ps.drop_last();
        let last = ps.last();
        lemma_unanchored_in(found, source, front, shown);
        let before = unanchored_in(found, source, front);
        let after = unanchored_in(found, source, ps);
        assert(ps[ps.len() - 1] == last);
        assert forall|j: int| 0 <= j < front.len() implies #[trigger] front[j] == ps[j] by {}
        let added = is_unanchored(last) && !names_pattern(before, last.display);
        if added {
            assert(after =~= before.push((last.display, source)));
            assert(after[before.len() as int].0 == last.display);
        }
        if names_pattern(before, shown) {
            let i = choose|i: int| 0 <= i < before.len() && (#[trigger] before[i]).0 == shown;
            assert(after[i].0 == shown);
        }
        if names_pattern(after, shown) && !names_pattern(before, shown) {
            let i = choose|i: int| 0 <= i < after.len() && (#[trigger] after[i]).0 == shown;
            if i < before.len() {
                assert(before[i].0 == shown);
            }
            assert(last.display == shown);
        }
        if exists|j: int|
            0 <= j < front.len() && is_unanchored(#[trigger] front[j]) && front[j].display
                == shown {
            let j = choose|j: int|
                0 <= j < front.len() && is_unanchored(#[trigger] front[j]) && front[j].display
                    == shown;
            assert(is_unanchored(ps[j]));
        }
        if exists|j: int|
            0 <= j < ps.len() && is_unanchored(#[trigger] ps[j]) && ps[j].display == shown {
            let j = choose|j: int|
                0 <= j < ps.len() && is_unanchored(#[trigger] ps[j]) && ps[j].display == shown;
            if j < front.len() {
                assert(is_unanchored(front[j]));
            }
        }
        assert forall|from: Seq<char>| #[trigger] after.contains((shown, from)) implies found.contains(
            (shown, from),
        ) || (from == source && !names_pattern(found, shown)) by {
            let i = choose|i: int| 0 <= i < after.len() && after[i] == (shown, from);
            if i < before.len() {
                assert(before[i] == (shown, from));
                assert(before.contains((shown, from)));
            }
        }
    }
}

proof fn lemma_unanchored_once(
    found: Seq<(Seq<char>, Seq<char>)>,
    source: Seq<char>,
    ps: Seq<PatternView>,
)
    requires
        forall|a: int, b: int|
            0 <= a < b < found.len() ==> (#[trigger] found[a]).0 != (#[trigger] found[b]).0,
    ensures
        forall|a: int, b: int|
            0 <= a < b < unanchored_in(found, source, ps).len() ==> (#[trigger] unanchored_in(
                found,
                source,
                ps,
            )[a]).0 != (#[trigger] unanchored_in(found, source, ps)[b]).0,
    decreases ps.len(),
{
    if ps.len() > 0 {
        lemma_unanchored_once(found, source, ps.drop_last());
        let before = unanchored_in(found, source, ps.drop_last());
        let after = unanchored_in(found, source, ps);
        assert forall|a: int, b: int| 0 <= a < b < after.len() implies (#[trigger] after[a]).0 != (
        #[trigger] after[b]).0 by {
            assert(after[a] == before[a]);
            if b < before.len() {
                assert(after[b] == before[b]);
            }
        }
    }
}

} // verus!
