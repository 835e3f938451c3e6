//! The allow-list of force-included files: gitignore-syntax patterns in layers,
//! of which the last match wins.
//!
//! The polarity is the reverse of `.gitignore`: a bare pattern includes, and
//! `!` carves out.

use bstr::ByteSlice;
use vstd::prelude::*;

verus! {

/// The patterns of `gix_ignore`, in lists.
#[verifier::external_type_specification]
#[verifier::external_body]
pub struct ExSearch(gix::ignore::Search);

/// One pattern, as far as selection looks at it.
#[derive(Debug)]
pub struct Pattern {
    /// The pattern without `!`, without a slash at its front and without one at
    /// its end.
    pub text: Vec<u8>,
    /// Whether it carves out.
    pub negative: bool,
    /// Whether it was written with a slash at its front.
    pub absolute: bool,
    /// Whether there is no slash within it.
    pub no_sub_dir: bool,
    /// Whether it was written with a slash at its end.
    pub must_be_dir: bool,
    /// Whether it is one asterisk and then literal text.
    pub ends_with: bool,
    /// Where its first wildcard stands.
    pub first_wildcard: Option<usize>,
    /// The pattern as it is shown.
    pub display: String,
}

/// The view of a [`Pattern`].
pub struct PatternView {
    pub text: Seq<u8>,
    pub negative: bool,
    pub absolute: bool,
    pub no_sub_dir: bool,
    pub must_be_dir: bool,
    pub ends_with: bool,
    pub first_wildcard: Option<usize>,
    pub display: Seq<char>,
}

impl View for Pattern {
    type V = PatternView;

    open spec fn view(&self) -> PatternView {
        PatternView {
            text: self.text@,
            negative: self.negative,
            absolute: self.absolute,
            no_sub_dir: self.no_sub_dir,
            must_be_dir: self.must_be_dir,
            ends_with: self.ends_with,
            first_wildcard: self.first_wildcard,
            display: self.display@,
        }
    }
}

/// The views of a list of patterns.
pub open spec fn pattern_views(v: Seq<Pattern>) -> Seq<PatternView> {
    Seq::new(v.len(), |i: int| v[i]@)
}

/// What a search holds: its lists, each with the base that its patterns are
/// relative to, if it has one, and with its patterns in the order in which they
/// were added.
pub uninterp spec fn search_lists(search: gix::ignore::Search) -> Seq<
    (Option<Seq<u8>>, Seq<PatternView>),
>;

/// The patterns that `gix_ignore` parses out of the bytes of a pattern file.
pub uninterp spec fn parsed_patterns(bytes: Seq<u8>) -> Seq<PatternView>;

/// Whether `gix_glob` matches a pattern with a path that is relative to the
/// root, which is that of a directory or not.
pub uninterp spec fn pattern_matches(p: PatternView, rel: Seq<u8>, is_dir: bool) -> bool;

/// Whether a pattern is matched with the last segment of a path alone.
pub open spec fn matches_basename(p: PatternView) -> bool {
    p.no_sub_dir && !p.absolute
}

/// Whether the literal text that a pattern starts with, where it is matched
/// with whole paths, is what `rel` starts with.
pub open spec fn head_fits(p: PatternView, rel: Seq<u8>) -> bool {
    matches_basename(p) || match p.first_wildcard {
        Some(pos) => p.text.take(pos as int).is_prefix_of(rel),
        None => rel == p.text,
    }
}

/// What holds of every parsed pattern: its first wildcard is in the text, and
/// it matches no path that its literal head does not fit.
pub open spec fn well_parsed(p: PatternView) -> bool {
    &&& p.first_wildcard matches Some(pos) ==> pos < p.text.len()
    &&& forall|rel: Seq<u8>, is_dir: bool| #[trigger]
        pattern_matches(p, rel, is_dir) ==> head_fits(p, rel)
}

/// Whether every pattern of a list is well parsed.
pub open spec fn all_well_parsed(ps: Seq<PatternView>) -> bool {
    forall|i: int| 0 <= i < ps.len() ==> well_parsed(#[trigger] ps[i])
}

/// Whether none of a search's lists has a base.
pub open spec fn has_no_base(lists: Seq<(Option<Seq<u8>>, Seq<PatternView>)>) -> bool {
    forall|i: int| 0 <= i < lists.len() ==> (#[trigger] lists[i]).0 is None
}

/// The patterns of all lists, those of earlier lists first.
pub open spec fn held(lists: Seq<(Option<Seq<u8>>, Seq<PatternView>)>) -> Seq<PatternView>
    decreases lists.len(),
{
    if lists.len() == 0 {
        Seq::empty()
    } else {
        held(lists.drop_last()) + lists.last().1
    }
}

/// Whether `ps[i]` decides on a path: it matches, and none behind it does.
pub open spec fn decides(ps: Seq<PatternView>, i: int, rel: Seq<u8>, is_dir: bool) -> bool {
    &&& 0 <= i < ps.len()
    &&& pattern_matches(ps[i], rel, is_dir)
    &&& forall|j: int| i < j < ps.len() ==> !pattern_matches(#[trigger] ps[j], rel, is_dir)
}

/// The verdict of the last of `ps` that matches: `Some(true)` to include,
/// `Some(false)` to carve out.
pub open spec fn verdict(ps: Seq<PatternView>, rel: Seq<u8>, is_dir: bool) -> Option<bool>
    decreases ps.len(),
{
    if ps.len() == 0 {
        None
    } else if pattern_matches(ps.last(), rel, is_dir) {
        Some(!ps.last().negative)
    } else {
        verdict(ps.drop_last(), rel, is_dir)
    }
}

/// `gix_ignore::Search::default`: a search that holds no list.
#[verifier::external_body]
fn empty_search() -> (r: gix::ignore::Search)
    ensures
        search_lists(r) == Seq::<(Option<Seq<u8>>, Seq<PatternView>)>::empty(),
{
    gix::ignore::Search::default()
}

/// `gix_ignore::Search::add_patterns_buffer` without a root: one more list,
/// without a base, that holds the patterns parsed out of `bytes`, each of them
/// well parsed.
#[verifier::external_body]
fn add_patterns(search: &mut gix::ignore::Search, bytes: &[u8], source: &str)
    ensures
        search_lists(*final(search)) == search_lists(*old(search)).push(
            (None::<Seq<u8>>, parsed_patterns(bytes@)),
        ),
        all_well_parsed(search_lists(*final(search)).last().1),
{
    let parse = gix::ignore::search::Ignore::default();
    search.add_patterns_buffer(bytes, source, None, parse).expect("without a root nothing fails")
}

/// The patterns of one list of a `gix_ignore::Search`, each with the fields of
/// its `gix_glob::Pattern`.
#[verifier::external_body]
fn list_patterns(search: &gix::ignore::Search, index: usize) -> (r: Vec<Pattern>)
    requires
        index < search_lists(*search).len(),
    ensures
        pattern_views(r@) == search_lists(*search)[index as int].1,
{
    let patterns = search.patterns[index].patterns.iter().map(|m| &m.pattern);
    patterns.map(|p| Pattern {
        text: p.text.to_vec(),
        negative: p.mode.contains(gix::glob::pattern::Mode::NEGATIVE),
        absolute: p.mode.contains(gix::glob::pattern::Mode::ABSOLUTE),
        no_sub_dir: p.mode.contains(gix::glob::pattern::Mode::NO_SUB_DIR),
        must_be_dir: p.mode.contains(gix::glob::pattern::Mode::MUST_BE_DIR),
        ends_with: p.mode.contains(gix::glob::pattern::Mode::ENDS_WITH),
        first_wildcard: p.first_wildcard_pos,
        display: p.to_string(),
    }).collect()
}

/// `gix_ignore::Search::pattern_matching_relative_path`, case-sensitive: whether
/// the pattern that decides on `rel` carves out, or `None` where no pattern
/// matches. Of the patterns that match, the last one decides.
#[verifier::external_body]
fn deciding_pattern_is_negative(search: &gix::ignore::Search, rel: &[u8], is_dir: bool) -> (r:
    Option<bool>)
    requires
        has_no_base(search_lists(*search)),
        rel@.len() > 0 && rel@[0] != 47,
    ensures
        match r {
            Some(negative) => exists|i: int| #[trigger]
                decides(held(search_lists(*search)), i, rel@, is_dir) && negative == held(
                    search_lists(*search),
                )[i].negative,
            None => forall|i: int|
                0 <= i < held(search_lists(*search)).len() ==> !pattern_matches(
                    #[trigger] held(search_lists(*search))[i],
                    rel@,
                    is_dir,
                ),
        },
{
    let case = gix::glob::pattern::Case::Sensitive;
    let found = search.pattern_matching_relative_path(rel.as_bstr(), Some(is_dir), case);
    found.map(|m| m.pattern.is_negative())
}

proof fn lemma_verdict(ps: Seq<PatternView>, i: int, rel: Seq<u8>, is_dir: bool)
    requires
        decides(ps, i, rel, is_dir),
    ensures
        verdict(ps, rel, is_dir) == Some(!ps[i].negative),
    decreases ps.len(),
{
    if i < ps.len() - 1 {
        assert(!pattern_matches(ps[ps.len() - 1], rel, is_dir));
        assert(decides(ps.drop_last(), i, rel, is_dir)) by {
            assert forall|j: int| i < j < ps.drop_last().len() implies !pattern_matches(
                #[trigger] ps.drop_last()[j],
                rel,
                is_dir,
            ) by {
                assert(ps.drop_last()[j] == ps[j]);
            }
        }
        lemma_verdict(ps.drop_last(), i, rel, is_dir);
    }
}

proof fn lemma_no_verdict(ps: Seq<PatternView>, rel: Seq<u8>, is_dir: bool)
    requires
        forall|i: int| 0 <= i < ps.len() ==> !pattern_matches(#[trigger] ps[i], rel, is_dir),
    ensures
        verdict(ps, rel, is_dir) is None,
    decreases ps.len(),
{
    if ps.len() > 0 {
        assert forall|i: int| 0 <= i < ps.drop_last().len() implies !pattern_matches(
            #[trigger] ps.drop_last()[i],
            rel,
            is_dir,
        ) by {
            assert(ps.drop_last()[i] == ps[i]);
        }
        lemma_no_verdict(ps.drop_last(), rel, is_dir);
    }
}

/// A verdict is that of some pattern that matches.
pub proof fn lemma_verdict_has_a_pattern(ps: Seq<PatternView>, rel: Seq<u8>, is_dir: bool)
    requires
        verdict(ps, rel, is_dir) is Some,
    ensures
        exists|i: int|
            0 <= i < ps.len() && pattern_matches(#[trigger] ps[i], rel, is_dir) && verdict(
                ps,
                rel,
                is_dir,
            ) == Some(!ps[i].negative),
    decreases ps.len(),
{
    if pattern_matches(ps.last(), rel, is_dir) {
        assert(pattern_matches(ps[ps.len() - 1], rel, is_dir));
    } else {
        lemma_verdict_has_a_pattern(ps.drop_last(), rel, is_dir);
        let i = choose|i: int|
            0 <= i < ps.drop_last().len() && pattern_matches(
                #[trigger] ps.drop_last()[i],
                rel,
                is_dir,
            ) && verdict(ps.drop_last(), rel, is_dir) == Some(!ps.drop_last()[i].negative);
        assert(ps[i] == ps.drop_last()[i]);
    }
}

/// Where a pattern matches, one decides.
pub proof fn lemma_a_match_decides(ps: Seq<PatternView>, rel: Seq<u8>, is_dir: bool)
    ensures
        (exists|i: int| 0 <= i < ps.len() && pattern_matches(#[trigger] ps[i], rel, is_dir))
            ==> exists|i: int| #[trigger] decides(ps, i, rel, is_dir),
    decreases ps.len(),
{
    if exists|i: int| 0 <= i < ps.len() && pattern_matches(#[trigger] ps[i], rel, is_dir) {
        let n = ps.len() - 1;
        if pattern_matches(ps[n], rel, is_dir) {
            assert(decides(ps, n, rel, is_dir));
        } else {
            let front = ps.drop_last();
            let i = choose|i: int|
                0 <= i < ps.len() && pattern_matches(#[trigger] ps[i], rel, is_dir);
            assert(front[i] == ps[i]);
            lemma_a_match_decides(front, rel, is_dir);
            let k = choose|k: int| #[trigger] decides(front, k, rel, is_dir);
            assert(front[k] == ps[k]);
            assert forall|j: int| k < j < ps.len() implies !pattern_matches(
                #[trigger] ps[j],
                rel,
                is_dir,
            ) by {
                if j < n {
                    assert(front[j] == ps[j]);
                }
            }
            assert(decides(ps, k, rel, is_dir));
        }
    }
}

/// The verdict on a path is that of the last pattern that matches it: it includes, or
/// carves out where it is negative. Without a match there is no verdict.
pub proof fn law_the_last_match_wins(ps: Seq<PatternView>, rel: Seq<u8>, is_dir: bool)
    ensures
        forall|i: int|
            0 <= i < ps.len() && pattern_matches(#[trigger] ps[i], rel, is_dir) && (forall|j: int|
                i < j < ps.len() ==> !pattern_matches(#[trigger] ps[j], rel, is_dir)) ==> verdict(
                ps,
                rel,
                is_dir,
            ) == Some(!ps[i].negative),
        (forall|i: int| 0 <= i < ps.len() ==> !pattern_matches(#[trigger] ps[i], rel, is_dir))
            <==> verdict(ps, rel, is_dir) is None,
{
    assert forall|i: int|
        0 <= i < ps.len() && pattern_matches(#[trigger] ps[i], rel, is_dir) && (forall|j: int|
            i < j < ps.len() ==> !pattern_matches(#[trigger] ps[j], rel, is_dir)) implies verdict(
        ps,
        rel,
        is_dir,
    ) == Some(!ps[i].negative) by {
        assert(decides(ps, i, rel, is_dir));
        lemma_verdict(ps, i, rel, is_dir);
    }
    if forall|i: int| 0 <= i < ps.len() ==> !pattern_matches(#[trigger] ps[i], rel, is_dir) {
        lemma_no_verdict(ps, rel, is_dir);
    } else {
        lemma_a_match_decides(ps, rel, is_dir);
        let i = choose|i: int| #[trigger] decides(ps, i, rel, is_dir);
        lemma_verdict(ps, i, rel, is_dir);
    }
}

/// One file of patterns.
#[derive(Debug)]
pub struct Layer {
    /// The file, as it is shown.
    pub source: String,
    /// Its patterns, in order.
    pub patterns: Vec<Pattern>,
}

/// The view of a [`Layer`].
pub struct LayerView {
    pub source: Seq<char>,
    pub patterns: Seq<PatternView>,
}

impl View for Layer {
    type V = LayerView;

    open spec fn view(&self) -> LayerView {
        LayerView { source: self.source@, patterns: pattern_views(self.patterns@) }
    }
}

/// The patterns of all layers, those of earlier layers first.
pub open spec fn flat(layers: Seq<LayerView>) -> Seq<PatternView>
    decreases layers.len(),
{
    if layers.len() == 0 {
        Seq::empty()
    } else {
        flat(layers.drop_last()) + layers.last().patterns
    }
}

/// The layered allow-list. Its view is the layers.
pub struct AllowList {
    search: gix::ignore::Search,
    layers: Vec<Layer>,
}

impl View for AllowList {
    type V = Seq<LayerView>;

    closed spec fn view(&self) -> Seq<LayerView> {
        Seq::new(self.layers@.len(), |i: int| self.layers@[i]@)
    }
}

impl AllowList {
    #[verifier::type_invariant]
    spec fn well_formed(self) -> bool {
        let lists = search_lists(self.search);
        &&& has_no_base(lists)
        &&& lists.len() == self.layers@.len()
        &&& forall|i: int|
            0 <= i < lists.len() ==> (#[trigger] lists[i]).1 == self@[i].patterns
                && all_well_parsed(lists[i].1)
    }

    proof fn lemma_flat(
        lists: Seq<(Option<Seq<u8>>, Seq<PatternView>)>,
        layers: Seq<LayerView>,
    )
        requires
            lists.len() == layers.len(),
            forall|i: int|
                0 <= i < lists.len() ==> (#[trigger] lists[i]).1 == layers[i].patterns
                    && all_well_parsed(lists[i].1),
        ensures
            held(lists) == flat(layers),
            all_well_parsed(flat(layers)),
        decreases lists.len(),
    {
        if lists.len() > 0 {
            assert(lists[lists.len() - 1].1 == layers.last().patterns);
            Self::lemma_flat(lists.drop_last(), layers.drop_last());
        }
    }

    /// An allow-list without a layer.
    pub fn new() -> (r: Self)
        ensures
            r@ == Seq::<LayerView>::empty(),
    {
        let r = AllowList { search: empty_search(), layers: Vec::new() };
        assert(r@ =~= Seq::<LayerView>::empty());
        r
    }

    /// Adds the patterns of a file as the layer that wins over those before it.
    pub fn add_layer(&mut self, source: &str, bytes: &[u8])
        ensures
            final(self)@ == old(self)@.push(
                LayerView { source: source@, patterns: parsed_patterns(bytes@) },
            ),
    {
        proof {
            use_type_invariant(&*self);
        }
        let ghost before = self@;
        let mut taken = Self::new();
        std::mem::swap(&mut taken, self);
        let AllowList { mut search, mut layers } = taken;
        let ghost lists = search_lists(search);
        let index: usize = layers.len();
        add_patterns(&mut search, bytes, source);
        let patterns = list_patterns(&search, index);
        let layer = Layer { source: source.to_owned(), patterns };
        let ghost added = layer@;
        layers.push(layer);
        proof {
            let views = Seq::new(layers@.len(), |i: int| layers@[i]@);
            assert(views =~= before.push(added));
            let now = search_lists(search);
            assert forall|i: int| 0 <= i < now.len() implies (#[trigger] now[i]).1
                == views[i].patterns && all_well_parsed(now[i].1) && now[i].0 is None by {
                if i < lists.len() {
                    assert(now[i] == lists[i]);
                } else {
                    assert(now[i] == now.last());
                }
            }
        }
        *self = AllowList { search, layers };
    }

    /// The layers.
    pub fn layers(&self) -> (r: &Vec<Layer>)
        ensures
            r@.len() == self@.len(),
            forall|i: int| 0 <= i < r@.len() ==> (#[trigger] r@[i])@ == self@[i],
            all_well_parsed(flat(self@)),
    {
        proof {
            use_type_invariant(self);
            Self::lemma_flat(search_lists(self.search), self@);
        }
        &self.layers
    }

    /// Matches `rel`: `Some(true)` to include it, `Some(false)` to carve it
    /// out, `None` where no pattern matches.
    pub fn classify(&self, rel: &[u8], is_dir: bool) -> (r: Option<bool>)
        requires
            rel@.len() > 0 && rel@[0] != 47,
        ensures
            r == verdict(flat(self@), rel@, is_dir),
    {
        proof {
            use_type_invariant(self);
            Self::lemma_flat(search_lists(self.search), self@);
        }
        match deciding_pattern_is_negative(&self.search, rel, is_dir) {
            Some(negative) => {
                proof {
                    let ps = flat(self@);
                    let i = choose|i: int| #[trigger]
                        decides(ps, i, rel@, is_dir) && negative == ps[i].negative;
                    lemma_verdict(ps, i, rel@, is_dir);
                }
                Some(!negative)
            },
            None => {
                proof {
                    lemma_no_verdict(flat(self@), rel@, is_dir);
                }
                None
            },
        }
    }
}

} // verus!
