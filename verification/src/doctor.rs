//! Checking whether the repository itself is the problem: what was found, and
//! what to do about it.

use vstd::prelude::*;
use vstd::utf8::encode_utf8;

use crate::bytes::{join_path, joined, rows, same_bytes};
use crate::display::{byte_len, human_bytes, join_texts, separated, size_text};
use crate::pktline::hex_value;
use crate::protocol::REF_NAMESPACE;
use crate::streams::{tip_views, StreamTip};
use crate::text::{
    chars_of, concat3, copy_texts, decimal, has_part, is_text_before,
    lemma_text_before_is_total, lemma_text_before_is_transitive, lines, lines_of, part_at,
    push_decimal, push_signed, push_text, same_text, signed_decimal, starts_with, text_before,
    texts, trim_text, trimmed,
};

verus! {

/// The verdict on what is in order, or only worth knowing.
pub const OK: &'static str = "ok";

/// The verdict on what will cost something.
pub const WARN: &'static str = "warn";

/// The verdict on what is broken.
pub const ERROR: &'static str = "error";

/// What advertising a ref takes besides its name: the length of the pkt-line, the
/// name of an object, a blank and a line feed.
pub const REF_ADVERTISEMENT_OVERHEAD: u64 = 46;

/// The size of an advertisement that is worth a warning.
pub const ADVERTISEMENT_WARN_BYTES: u64 = 262_144;

/// The number of packs above which a repository is worth repacking.
pub const PACK_WARN_COUNT: usize = 50;

/// The age in seconds at which an anchor is stale.
pub const ANCHOR_STALE_SECS: i64 = 1_209_600;

/// The seconds of a day.
pub const SECONDS_PER_DAY: i64 = 86_400;

/// A value behind a finding.
#[derive(Debug)]
pub enum Detail {
    /// A count.
    Count(u64),
    /// A number that may be negative.
    Signed(i64),
    /// A yes or no.
    Flag(bool),
    /// Texts.
    Texts(Vec<String>),
    /// Nothing.
    Absent,
}

/// A value behind a finding.
pub enum DetailView {
    Count(u64),
    Signed(i64),
    Flag(bool),
    Texts(Seq<Seq<char>>),
    Absent,
}

impl View for Detail {
    type V = DetailView;

    open spec fn view(&self) -> DetailView {
        match self {
            Detail::Count(n) => DetailView::Count(*n),
            Detail::Signed(n) => DetailView::Signed(*n),
            Detail::Flag(b) => DetailView::Flag(*b),
            Detail::Texts(v) => DetailView::Texts(texts(v@)),
            Detail::Absent => DetailView::Absent,
        }
    }
}

/// What a table holds once `value` is put under `key`, in the order of the keys.
pub open spec fn inserted(
    table: Seq<(Seq<char>, DetailView)>,
    key: Seq<char>,
    value: DetailView,
) -> Seq<(Seq<char>, DetailView)>
    decreases table.len(),
{
    if table.len() == 0 {
        seq![(key, value)]
    } else if table[0].0 == key {
        seq![(key, value)] + table.skip(1)
    } else if text_before(key, table[0].0) {
        seq![(key, value)] + table
    } else {
        seq![table[0]] + inserted(table.skip(1), key, value)
    }
}

/// The values behind a finding by their names, in the order of the names.
#[derive(Debug)]
pub struct Details {
    entries: Vec<(String, Detail)>,
}

spec fn entry_views(v: Seq<(String, Detail)>) -> Seq<(Seq<char>, DetailView)> {
    Seq::new(v.len(), |i: int| (v[i].0@, v[i].1@))
}

impl View for Details {
    type V = Seq<(Seq<char>, DetailView)>;

    closed spec fn view(&self) -> Seq<(Seq<char>, DetailView)> {
        entry_views(self.entries@)
    }
}

/// Whether the names ascend, so that none comes twice.
pub open spec fn keys_ascend(table: Seq<(Seq<char>, DetailView)>) -> bool {
    forall|i: int, j: int|
        0 <= i < j < table.len() ==> text_before((#[trigger] table[i]).0, (#[trigger] table[j]).0)
}

proof fn lemma_inserted_at(
    table: Seq<(Seq<char>, DetailView)>,
    key: Seq<char>,
    value: DetailView,
    i: int,
)
    requires
        0 <= i <= table.len(),
        forall|k: int| 0 <= k < i ==> text_before((#[trigger] table[k]).0, key),
        i < table.len() ==> !text_before(table[i].0, key),
    ensures
        i < table.len() && table[i].0 == key ==> inserted(table, key, value) == table.update(
            i,
            (key, value),
        ),
        i == table.len() || table[i].0 != key ==> inserted(table, key, value) == table.insert(
            i,
            (key, value),
        ),
    decreases i,
{
    if i == 0 {
        if table.len() > 0 {
            lemma_text_before_is_total(table[0].0, key);
            if table[0].0 == key {
                assert(inserted(table, key, value) =~= table.update(0, (key, value)));
            } else {
                assert(inserted(table, key, value) =~= table.insert(0, (key, value)));
            }
        } else {
            assert(inserted(table, key, value) =~= table.insert(0, (key, value)));
        }
    } else {
        let rest = table.skip(1);
        assert(text_before(table[0].0, key));
        lemma_text_before_is_total(table[0].0, key);
        assert forall|k: int| 0 <= k < i - 1 implies text_before((#[trigger] rest[k]).0, key) by {
            assert(rest[k] == table[k + 1]);
        }
        lemma_inserted_at(rest, key, value, i - 1);
        if i < table.len() {
            assert(rest[i - 1] == table[i]);
        }
        if i < table.len() && table[i].0 == key {
            assert(inserted(table, key, value) =~= table.update(i, (key, value)));
        } else {
            assert(inserted(table, key, value) =~= table.insert(i, (key, value)));
        }
    }
}

proof fn lemma_insert_ascends(
    table: Seq<(Seq<char>, DetailView)>,
    key: Seq<char>,
    value: DetailView,
    i: int,
)
    requires
        keys_ascend(table),
        0 <= i <= table.len(),
        forall|k: int| 0 <= k < i ==> text_before((#[trigger] table[k]).0, key),
        i < table.len() ==> text_before(key, table[i].0),
    ensures
        keys_ascend(table.insert(i, (key, value))),
{
    let next = table.insert(i, (key, value));
    assert forall|a: int, b: int| 0 <= a < b < next.len() implies text_before(
        (#[trigger] next[a]).0,
        (#[trigger] next[b]).0,
    ) by {
        if b < i {
            assert(next[a] == table[a] && next[b] == table[b]);
        } else if b == i {
            assert(next[a] == table[a]);
        } else if a < i {
            assert(next[a] == table[a] && next[b] == table[b - 1]);
        } else if a == i {
            assert(next[b] == table[b - 1]);
            if b - 1 > i {
                assert(text_before(table[i].0, table[b - 1].0));
                lemma_text_before_is_transitive(key, table[i].0, table[b - 1].0);
            }
        } else {
            assert(next[a] == table[a - 1] && next[b] == table[b - 1]);
        }
    }
}

impl Details {
    #[verifier::type_invariant]
    spec fn well_formed(self) -> bool {
        keys_ascend(entry_views(self.entries@))
    }

    /// No values.
    pub fn new() -> (r: Self)
        ensures
            r@ == Seq::<(Seq<char>, DetailView)>::empty(),
    {
        let entries: Vec<(String, Detail)> = Vec::new();
        proof {
            assert(entry_views(entries@) =~= Seq::<(Seq<char>, DetailView)>::empty());
        }
        Details { entries }
    }

    /// The values with one more under its name, or another in place of the one
    /// that has the name.
    pub fn with(self, key: &str, value: Detail) -> (r: Self)
        ensures
            r@ == inserted(self@, key@, value@),
    {
        proof {
            use_type_invariant(&self);
        }
        let Details { entries } = self;
        let mut entries = entries;
        let ghost table = entry_views(entries@);
        let mut i: usize = 0;
        while i < entries.len() && is_text_before(entries[i].0.as_str(), key)
            invariant
                i <= entries@.len(),
                table == entry_views(entries@),
                forall|k: int| 0 <= k < i ==> text_before((#[trigger] table[k]).0, key@),
            ensures
                i <= entries@.len(),
                forall|k: int| 0 <= k < i ==> text_before((#[trigger] table[k]).0, key@),
                i < entries@.len() ==> !text_before(table[i as int].0, key@),
            decreases entries@.len() - i,
        {
            assert(table[i as int].0 == entries@[i as int].0@);
            i += 1;
        }
        proof {
            lemma_inserted_at(table, key@, value@, i as int);
        }
        let found = i < entries.len() && same_text(entries[i].0.as_str(), key);
        let ghost before = entries@;
        if found {
            entries.remove(i);
            entries.insert(i, (key.to_owned(), value));
            proof {
                assert(entry_views(entries@) =~= table.update(i as int, (key@, value@)));
            }
        } else {
            entries.insert(i, (key.to_owned(), value));
            proof {
                assert(entry_views(entries@) =~= table.insert(i as int, (key@, value@)));
                if i < table.len() {
                    assert(table[i as int].0 == before[i as int].0@);
                    lemma_text_before_is_total(table[i as int].0, key@);
                }
                lemma_insert_ascends(table, key@, value@, i as int);
            }
        }
        Details { entries }
    }

    /// How many values there are.
    pub fn len(&self) -> (r: usize)
        ensures
            r == self@.len(),
    {
        self.entries.len()
    }

    /// The name of the value at `i`.
    pub fn name_at(&self, i: usize) -> (r: &str)
        requires
            i < self@.len(),
        ensures
            r@ == self@[i as int].0,
    {
        self.entries[i].0.as_str()
    }

    /// The value at `i`.
    pub fn value_at(&self, i: usize) -> (r: &Detail)
        requires
            i < self@.len(),
        ensures
            r@ == self@[i as int].1,
    {
        &self.entries[i].1
    }
}

/// A finding: a name, a verdict, what was found, what to do about it, and the
/// values behind it.
#[verifier::ext_equal]
pub struct CheckView {
    pub name: Seq<char>,
    pub status: Seq<char>,
    pub summary: Seq<char>,
    pub remedy: Option<Seq<char>>,
    pub detail: Seq<(Seq<char>, DetailView)>,
}

impl CheckView {
    /// The finding with one more value.
    pub open spec fn with(self, key: Seq<char>, value: DetailView) -> CheckView {
        CheckView { detail: inserted(self.detail, key, value), ..self }
    }
}

/// A finding without values.
pub open spec fn finding(
    name: Seq<char>,
    status: Seq<char>,
    summary: Seq<char>,
    remedy: Option<Seq<char>>,
) -> CheckView {
    CheckView { name, status, summary, remedy, detail: Seq::empty() }
}

/// One thing that was looked at.
#[derive(Debug)]
pub struct Check {
    /// What it is.
    pub name: String,
    /// How bad it is: [`OK`], [`WARN`] or [`ERROR`].
    pub status: &'static str,
    /// What was found, in a line.
    pub summary: String,
    /// What to do about it, if there is something to do.
    pub remedy: Option<String>,
    /// The values behind it.
    pub detail: Details,
}

impl View for Check {
    type V = CheckView;

    open spec fn view(&self) -> CheckView {
        CheckView {
            name: self.name@,
            status: self.status@,
            summary: self.summary@,
            remedy: match self.remedy {
                Some(text) => Some(text@),
                None => None,
            },
            detail: self.detail@,
        }
    }
}

impl Check {
    /// A finding without values.
    pub fn new(name: &str, status: &'static str, summary: &str, remedy: Option<&str>) -> (r: Self)
        ensures
            r@ == finding(
                name@,
                status@,
                summary@,
                match remedy {
                    Some(text) => Some(text@),
                    None => None,
                },
            ),
    {
        Check {
            name: name.to_owned(),
            status,
            summary: summary.to_owned(),
            remedy: match remedy {
                Some(text) => Some(text.to_owned()),
                None => None,
            },
            detail: Details::new(),
        }
    }

    /// The finding with one more value.
    pub fn with(self, key: &str, value: Detail) -> (r: Self)
        ensures
            r@ == self@.with(key@, value@),
    {
        let Check { name, status, summary, remedy, detail } = self;
        Check { name, status, summary, remedy, detail: detail.with(key, value) }
    }

    /// Whether the verdict is `status`.
    pub fn has_status(&self, status: &str) -> (r: bool)
        ensures
            r == (self@.status == status@),
    {
        same_text(self.status, status)
    }
}

/// How many findings have a verdict.
pub open spec fn count_status(checks: Seq<Check>, status: Seq<char>) -> nat
    decreases checks.len(),
{
    if checks.len() == 0 {
        0
    } else {
        count_status(checks.drop_last(), status) + if checks.last()@.status == status {
            1nat
        } else {
            0nat
        }
    }
}

/// What was found of a repository.
#[derive(Debug)]
pub struct DoctorReport {
    /// The repository.
    pub repo: String,
    /// The worktree, if one was given.
    pub worktree: Option<String>,
    /// The findings, in order.
    pub checks: Vec<Check>,
}

impl DoctorReport {
    fn count(&self, status: &str) -> (r: usize)
        ensures
            r == count_status(self.checks@, status@),
    {
        let ghost all = self.checks@;
        let mut n: usize = 0;
        let mut i: usize = 0;
        proof {
            assert(all.take(0) =~= Seq::<Check>::empty());
        }
        while i < self.checks.len()
            invariant
                i <= self.checks@.len(),
                all == self.checks@,
                n <= i,
                n == count_status(all.take(i as int), status@),
            decreases self.checks@.len() - i,
        {
            proof {
                let next = all.take(i + 1);
                assert(next.drop_last() =~= all.take(i as int));
                assert(next.last() == self.checks@[i as int]);
            }
            if self.checks[i].has_status(status) {
                n += 1;
            }
            i += 1;
        }
        proof {
            assert(all.take(all.len() as int) =~= all);
        }
        n
    }

    /// How many findings are errors.
    pub fn errors(&self) -> (r: usize)
        ensures
            r == count_status(self.checks@, ERROR@),
    {
        self.count(ERROR)
    }

    /// How many findings are warnings.
    pub fn warnings(&self) -> (r: usize)
        ensures
            r == count_status(self.checks@, WARN@),
    {
        self.count(WARN)
    }

    /// Adds a finding.
    pub fn push(&mut self, check: Check)
        ensures
            final(self).checks@ == old(self).checks@.push(check),
            final(self).repo == old(self).repo,
            final(self).worktree == old(self).worktree,
    {
        self.checks.push(check);
    }
}

/// How many bytes advertising these refs takes.
pub open spec fn advertisement_bytes(names: Seq<Seq<char>>) -> nat
    decreases names.len(),
{
    if names.len() == 0 {
        0
    } else {
        advertisement_bytes(names.drop_last()) + REF_ADVERTISEMENT_OVERHEAD as nat + byte_len(
            names.last(),
        )
    }
}

/// How many of these refs are in the namespace of synced refs.
pub open spec fn count_ours(names: Seq<Seq<char>>) -> nat
    decreases names.len(),
{
    if names.len() == 0 {
        0
    } else {
        count_ours(names.drop_last()) + if REF_NAMESPACE@.is_prefix_of(names.last()) {
            1nat
        } else {
            0nat
        }
    }
}

/// What to do about many refs.
pub const REFS_REMEDY: &'static str =
    "`listen` collapses this advertisement to a curated anchor set by default (ADR-0020), so git-full-send connections do not pay it unless `--no-hide-refs` is given \u{2014} see the `anchors` check for what gets advertised instead. For the cost every *other* git client of this repo still pays, sync into a dedicated repository whose objects/info/alternates points at this one's object store.";

/// What is found of a repository with these refs.
pub open spec fn refs_finding(names: Seq<Seq<char>>) -> CheckView {
    let bytes = advertisement_bytes(names);
    let costly = bytes >= ADVERTISEMENT_WARN_BYTES;
    finding(
        "refs"@,
        if costly {
            WARN@
        } else {
            OK@
        },
        decimal(names.len() as int) + " ref(s) ("@ + decimal(count_ours(names) as int)
            + " git-full-send's) \u{2014} about "@ + size_text(bytes)
            + " of ref advertisement on every connection"@,
        if costly {
            Some(REFS_REMEDY@)
        } else {
            None
        },
    ).with("refs"@, DetailView::Count(names.len() as u64)).with(
        "refs_ours"@,
        DetailView::Count(count_ours(names) as u64),
    ).with("advertisement_bytes_estimate"@, DetailView::Count(bytes as u64))
}

proof fn lemma_advertisement_grows(names: Seq<Seq<char>>, i: int)
    requires
        0 <= i <= names.len(),
    ensures
        advertisement_bytes(names.take(i)) <= advertisement_bytes(names),
        count_ours(names.take(i)) <= i,
    decreases names.len() - i,
{
    if i < names.len() {
        lemma_advertisement_grows(names, i + 1);
        assert(names.take(i + 1).drop_last() =~= names.take(i));
    } else {
        assert(names.take(i) =~= names);
    }
    lemma_ours_bounded(names.take(i));
}

proof fn lemma_ours_bounded(names: Seq<Seq<char>>)
    ensures
        count_ours(names) <= names.len(),
    decreases names.len(),
{
    if names.len() > 0 {
        lemma_ours_bounded(names.drop_last());
    }
}

/// Counts the refs, and the advertisement that every connection pays for them.
/// The size of the advertisement is estimated from the names.
pub fn check_refs(names: &Vec<String>) -> (r: Check)
    requires
        advertisement_bytes(texts(names@)) <= u64::MAX,
    ensures
        r@ == refs_finding(texts(names@)),
{
    let ghost all = texts(names@);
    let head = chars_of(REF_NAMESPACE);
    let mut ours: u64 = 0;
    let mut bytes: u64 = 0;
    let mut i: usize = 0;
    proof {
        assert(all.take(0) =~= Seq::<Seq<char>>::empty());
    }
    while i < names.len()
        invariant
            i <= names@.len(),
            all == texts(names@),
            head@ == REF_NAMESPACE@,
            advertisement_bytes(all) <= u64::MAX,
            bytes == advertisement_bytes(all.take(i as int)),
            ours == count_ours(all.take(i as int)),
            ours <= i,
        decreases names@.len() - i,
    {
        proof {
            let next = all.take(i + 1);
            assert(next.drop_last() =~= all.take(i as int));
            assert(next.last() == names@[i as int]@);
            lemma_advertisement_grows(all, i + 1);
        }
        let name = names[i].as_str();
        bytes = bytes + (REF_ADVERTISEMENT_OVERHEAD + name.as_bytes().len() as u64);
        let chars = chars_of(name);
        if starts_with(chars.as_slice(), head.as_slice()) {
            ours += 1;
        }
        i += 1;
    }
    proof {
        assert(all.take(all.len() as int) =~= all);
    }
    let total: u64 = names.len() as u64;
    let costly = bytes >= ADVERTISEMENT_WARN_BYTES;
    let mut summary = String::new();
    push_decimal(&mut summary, total);
    summary.append(" ref(s) (");
    push_decimal(&mut summary, ours);
    summary.append(" git-full-send's) \u{2014} about ");
    let human = format_bytes(bytes);
    summary.append(human.as_str());
    summary.append(" of ref advertisement on every connection");
    proof {
        assert(summary@ =~= decimal(all.len() as int) + " ref(s) ("@ + decimal(
            count_ours(all) as int,
        ) + " git-full-send's) \u{2014} about "@ + size_text(bytes as nat)
            + " of ref advertisement on every connection"@);
    }
    let (status, remedy) = if costly {
        (WARN, Some(REFS_REMEDY))
    } else {
        (OK, None)
    };
    Check::new("refs", status, summary.as_str(), remedy).with("refs", Detail::Count(total)).with(
        "refs_ours",
        Detail::Count(ours),
    ).with("advertisement_bytes_estimate", Detail::Count(bytes))
}

/// What is found of a repository whose refs cannot be read.
pub fn refs_unreadable(error: &str) -> (r: Check)
    ensures
        r@ == finding(
            "refs"@,
            ERROR@,
            "could not enumerate refs: "@ + error@,
            Some("check the repository is readable and not corrupt"@),
        ),
{
    let mut summary = "could not enumerate refs: ".to_owned();
    summary.append(error);
    Check::new(
        "refs",
        ERROR,
        summary.as_str(),
        Some("check the repository is readable and not corrupt"),
    )
}

/// A size in binary units, for the summary of a finding.
pub fn format_bytes(n: u64) -> (r: String)
    ensures
        r@ == size_text(n as nat),
{
    human_bytes(n)
}

/// Whether a ref is one that a pattern of the advertisement offers as an anchor:
/// the ref of that name, or any below a name that ends in a slash. The synced
/// refs are no anchors.
pub open spec fn is_anchor(pattern: Seq<char>, name: Seq<char>) -> bool {
    !REF_NAMESPACE@.is_prefix_of(pattern) && if pattern.len() > 0 && pattern.last() == '/' {
        pattern.is_prefix_of(name)
    } else {
        pattern == name
    }
}

/// Whether some pattern offers a ref as an anchor.
pub open spec fn is_advertised(patterns: Seq<Seq<char>>, name: Seq<char>) -> bool {
    exists|i: int| 0 <= i < patterns.len() && is_anchor(#[trigger] patterns[i], name)
}

/// Whether `r` is the latest time of an anchor among these tips, if there is
/// one.
pub open spec fn is_freshest(
    patterns: Seq<Seq<char>>,
    tips: Seq<(Seq<char>, i64)>,
    r: Option<i64>,
) -> bool {
    match r {
        Some(secs) => {
            &&& exists|i: int|
                0 <= i < tips.len() && is_advertised(patterns, (#[trigger] tips[i]).0) && tips[i].1
                    == secs
            &&& forall|i: int|
                0 <= i < tips.len() && is_advertised(patterns, (#[trigger] tips[i]).0)
                    ==> tips[i].1 <= secs
        },
        None => forall|i: int|
            0 <= i < tips.len() ==> !is_advertised(patterns, (#[trigger] tips[i]).0),
    }
}

fn offers(pattern: &str, name: &str) -> (r: bool)
    ensures
        r == is_anchor(pattern@, name@),
{
    let chars = chars_of(pattern);
    let ours = chars_of(REF_NAMESPACE);
    if starts_with(chars.as_slice(), ours.as_slice()) {
        return false;
    }
    if chars.len() > 0 && chars[chars.len() - 1] == '/' {
        let full = chars_of(name);
        starts_with(full.as_slice(), chars.as_slice())
    } else {
        same_text(pattern, name)
    }
}

fn any_offers(patterns: &Vec<String>, name: &str) -> (r: bool)
    ensures
        r == is_advertised(texts(patterns@), name@),
{
    let ghost all = texts(patterns@);
    let mut i: usize = 0;
    while i < patterns.len()
        invariant
            i <= patterns@.len(),
            all == texts(patterns@),
            forall|k: int| 0 <= k < i ==> !is_anchor(#[trigger] all[k], name@),
        decreases patterns@.len() - i,
    {
        if offers(patterns[i].as_str(), name) {
            assert(is_anchor(all[i as int], name@));
            return true;
        }
        i += 1;
    }
    false
}

/// The latest time among the tips of the refs that are offered as anchors.
pub fn freshest_advertised_secs(advertised: &Vec<String>, tips: &Vec<StreamTip>) -> (r: Option<i64>)
    ensures
        is_freshest(texts(advertised@), tip_views(tips@), r),
{
    let ghost patterns = texts(advertised@);
    let ghost views = tip_views(tips@);
    let mut freshest: Option<i64> = None;
    let mut i: usize = 0;
    proof {
        assert(views.take(0) =~= Seq::<(Seq<char>, i64)>::empty());
    }
    while i < tips.len()
        invariant
            i <= tips@.len(),
            patterns == texts(advertised@),
            views == tip_views(tips@),
            is_freshest(patterns, views.take(i as int), freshest),
        decreases tips@.len() - i,
    {
        let tip = &tips[i];
        let ghost so_far = freshest;
        let advertised_here = any_offers(advertised, tip.name.as_str());
        if advertised_here {
            freshest = match freshest {
                Some(secs) => if tip.committed_unix_secs > secs {
                    Some(tip.committed_unix_secs)
                } else {
                    Some(secs)
                },
                None => Some(tip.committed_unix_secs),
            };
        }
        proof {
            lemma_freshest_step(patterns, views, i as int, so_far, freshest);
        }
        i += 1;
    }
    proof {
        assert(views.take(views.len() as int) =~= views);
    }
    freshest
}

proof fn lemma_freshest_step(
    patterns: Seq<Seq<char>>,
    tips: Seq<(Seq<char>, i64)>,
    i: int,
    before: Option<i64>,
    after: Option<i64>,
)
    requires
        0 <= i < tips.len(),
        is_freshest(patterns, tips.take(i), before),
        after == if is_advertised(patterns, tips[i].0) {
            match before {
                Some(secs) => if tips[i].1 > secs {
                    Some(tips[i].1)
                } else {
                    Some(secs)
                },
                None => Some(tips[i].1),
            }
        } else {
            before
        },
    ensures
        is_freshest(patterns, tips.take(i + 1), after),
{
    let old_tips = tips.take(i);
    let new_tips = tips.take(i + 1);
    assert(new_tips[i] == tips[i]);
    assert forall|k: int| 0 <= k < i implies #[trigger] new_tips[k] == old_tips[k] by {}
    match before {
        Some(secs) => {
            let k = choose|k: int|
                0 <= k < old_tips.len() && is_advertised(patterns, (#[trigger] old_tips[k]).0)
                    && old_tips[k].1 == secs;
            assert(new_tips[k] == old_tips[k]);
            assert forall|j: int|
                0 <= j < new_tips.len() && is_advertised(patterns, (#[trigger] new_tips[j]).0) implies
                new_tips[j].1 <= after->0 by {
                if j < i {
                    assert(new_tips[j] == old_tips[j]);
                }
            }
        },
        None => {
            assert forall|j: int| 0 <= j < i implies !is_advertised(
                patterns,
                (#[trigger] new_tips[j]).0,
            ) by {
                assert(new_tips[j] == old_tips[j]);
            }
        },
    }
}

/// The ref of a remote that anchors the advertisement: what its `HEAD` points
/// to, or else its `main` or its `master`.
pub open spec fn anchor_of(
    remote: Seq<char>,
    head: Option<Seq<char>>,
    names: Seq<Seq<char>>,
) -> Option<Seq<char>> {
    let main = "refs/remotes/"@ + remote + "/main"@;
    let master = "refs/remotes/"@ + remote + "/master"@;
    if head is Some {
        head
    } else if names.contains(main) {
        Some(main)
    } else if names.contains(master) {
        Some(master)
    } else {
        None
    }
}

fn has_name(names: &Vec<String>, name: &str) -> (r: bool)
    ensures
        r == texts(names@).contains(name@),
{
    let ghost all = texts(names@);
    let mut i: usize = 0;
    while i < names.len()
        invariant
            i <= names@.len(),
            all == texts(names@),
            forall|k: int| 0 <= k < i ==> #[trigger] all[k] != name@,
        decreases names@.len() - i,
    {
        if same_text(names[i].as_str(), name) {
            assert(all[i as int] == name@);
            return true;
        }
        i += 1;
    }
    false
}

/// The ref of a remote that anchors the advertisement, if it has one.
pub fn remote_anchor(remote: &str, head: Option<&str>, names: &Vec<String>) -> (r: Option<String>)
    ensures
        match r {
            Some(name) => anchor_of(
                remote@,
                match head {
                    Some(h) => Some(h@),
                    None => None,
                },
                texts(names@),
            ) == Some(name@),
            None => anchor_of(
                remote@,
                match head {
                    Some(h) => Some(h@),
                    None => None,
                },
                texts(names@),
            ) is None,
        },
{
    match head {
        Some(h) => Some(h.to_owned()),
        None => {
            let main = concat3("refs/remotes/", remote, "/main");
            if has_name(names, main.as_str()) {
                return Some(main);
            }
            let master = concat3("refs/remotes/", remote, "/master");
            if has_name(names, master.as_str()) {
                return Some(master);
            }
            None
        },
    }
}

/// Remotes by name, each with what its `HEAD` points to.
pub open spec fn remote_views(remotes: Seq<(String, Option<String>)>) -> Seq<
    (Seq<char>, Option<Seq<char>>),
> {
    Seq::new(
        remotes.len(),
        |i: int|
            (
                remotes[i].0@,
                match remotes[i].1 {
                    Some(head) => Some(head@),
                    None => None,
                },
            ),
    )
}

/// The anchors of those remotes that have one, in order.
pub open spec fn anchors_in(
    remotes: Seq<(Seq<char>, Option<Seq<char>>)>,
    names: Seq<Seq<char>>,
) -> Seq<Seq<char>>
    decreases remotes.len(),
{
    if remotes.len() == 0 {
        Seq::empty()
    } else {
        let front = anchors_in(remotes.drop_last(), names);
        match anchor_of(remotes.last().0, remotes.last().1, names) {
            Some(anchor) => front.push(anchor),
            None => front,
        }
    }
}

/// The remotes that have no anchor, in order.
pub open spec fn unanchored(
    remotes: Seq<(Seq<char>, Option<Seq<char>>)>,
    names: Seq<Seq<char>>,
) -> Seq<Seq<char>>
    decreases remotes.len(),
{
    if remotes.len() == 0 {
        Seq::empty()
    } else {
        let front = unanchored(remotes.drop_last(), names);
        match anchor_of(remotes.last().0, remotes.last().1, names) {
            Some(_) => front,
            None => front.push(remotes.last().0),
        }
    }
}

/// The anchors of remotes, each with what its `HEAD` points to, and the remotes
/// that have none.
pub fn anchors_of(remotes: &Vec<(String, Option<String>)>, names: &Vec<String>) -> (r: (
    Vec<String>,
    Vec<String>,
))
    ensures
        texts(r.0@) == anchors_in(remote_views(remotes@), texts(names@)),
        texts(r.1@) == unanchored(remote_views(remotes@), texts(names@)),
{
    let ghost all = remote_views(remotes@);
    let ghost known = texts(names@);
    let mut anchors: Vec<String> = Vec::new();
    let mut missing: Vec<String> = Vec::new();
    proof {
        assert(all.take(0) =~= Seq::empty());
        assert(texts(anchors@) =~= Seq::empty());
        assert(texts(missing@) =~= Seq::empty());
    }
    let mut i: usize = 0;
    while i < remotes.len()
        invariant
            i <= remotes@.len(),
            all == remote_views(remotes@),
            known == texts(names@),
            texts(anchors@) == anchors_in(all.take(i as int), known),
            texts(missing@) == unanchored(all.take(i as int), known),
        decreases remotes@.len() - i,
    {
        proof {
            assert(all.take(i + 1).drop_last() =~= all.take(i as int));
            assert(all.take(i + 1).last() == all[i as int]);
        }
        let remote = remotes[i].0.as_str();
        let head = match &remotes[i].1 {
            Some(head) => Some(head.as_str()),
            None => None,
        };
        match remote_anchor(remote, head, names) {
            Some(anchor) => {
                push_text(&mut anchors, anchor.as_str());
            },
            None => {
                push_text(&mut missing, remote);
            },
        }
        i += 1;
    }
    proof {
        assert(all.take(all.len() as int) =~= all);
    }
    (anchors, missing)
}

/// Every remote has an anchor or is named as one that has none.
pub proof fn law_every_remote_is_anchored_or_named(
    remotes: Seq<(Seq<char>, Option<Seq<char>>)>,
    names: Seq<Seq<char>>,
)
    ensures
        anchors_in(remotes, names).len() + unanchored(remotes, names).len() == remotes.len(),
    decreases remotes.len(),
{
    if remotes.len() > 0 {
        law_every_remote_is_anchored_or_named(remotes.drop_last(), names);
    }
}

/// Those of the names that some pattern offers as an anchor, in order.
pub open spec fn offered(patterns: Seq<Seq<char>>, names: Seq<Seq<char>>) -> Seq<Seq<char>>
    decreases names.len(),
{
    if names.len() == 0 {
        Seq::empty()
    } else {
        let front = offered(patterns, names.drop_last());
        if is_advertised(patterns, names.last()) {
            front.push(names.last())
        } else {
            front
        }
    }
}

/// The refs whose tips tell how fresh the anchors are: those of the names that
/// the advertisement offers as anchors.
pub fn anchor_names(advertised: &Vec<String>, names: &Vec<String>) -> (r: Vec<String>)
    ensures
        texts(r@) == offered(texts(advertised@), texts(names@)),
{
    let ghost patterns = texts(advertised@);
    let ghost all = texts(names@);
    let mut out: Vec<String> = Vec::new();
    proof {
        assert(all.take(0) =~= Seq::empty());
        assert(texts(out@) =~= Seq::empty());
    }
    let mut i: usize = 0;
    while i < names.len()
        invariant
            i <= names@.len(),
            patterns == texts(advertised@),
            all == texts(names@),
            texts(out@) == offered(patterns, all.take(i as int)),
        decreases names@.len() - i,
    {
        proof {
            assert(all.take(i + 1).drop_last() =~= all.take(i as int));
            assert(all.take(i + 1).last() == names@[i as int]@);
        }
        if any_offers(advertised, names[i].as_str()) {
            push_text(&mut out, names[i].as_str());
        }
        i += 1;
    }
    proof {
        assert(all.take(all.len() as int) =~= all);
    }
    out
}

/// The patterns of the refs that are advertised: the synced refs, the branches,
/// and the anchors of the remotes.
pub fn advertised_refs(anchors: &Vec<String>) -> (r: Vec<String>)
    ensures
        texts(r@) == seq![REF_NAMESPACE@, "refs/heads/"@] + texts(anchors@),
{
    let mut out: Vec<String> = Vec::new();
    push_text(&mut out, REF_NAMESPACE);
    push_text(&mut out, "refs/heads/");
    let ghost front = texts(out@);
    proof {
        assert(front =~= seq![REF_NAMESPACE@, "refs/heads/"@]);
        assert(front + texts(anchors@).take(0) =~= front);
    }
    let mut i: usize = 0;
    while i < anchors.len()
        invariant
            i <= anchors@.len(),
            texts(out@) == front + texts(anchors@).take(i as int),
        decreases anchors@.len() - i,
    {
        push_text(&mut out, anchors[i].as_str());
        proof {
            assert(texts(out@) =~= front + texts(anchors@).take(i + 1));
        }
        i += 1;
    }
    proof {
        assert(texts(anchors@).take(anchors@.len() as int) =~= texts(anchors@));
    }
    out
}

/// How many days ago a time was; a time to come counts as now.
pub open spec fn days_since(secs: int, now: int) -> int {
    if now < secs {
        0
    } else {
        (now - secs) / SECONDS_PER_DAY as int
    }
}

/// How many days ago a time was; a time to come counts as now.
pub fn age_in_days(secs: i64, now: i64) -> (r: i64)
    requires
        now - secs <= i64::MAX,
    ensures
        r == days_since(secs as int, now as int),
{
    if now < secs {
        0
    } else {
        (now - secs) / SECONDS_PER_DAY
    }
}

/// The commands that record the default branches of remotes.
pub open spec fn set_head_commands(remotes: Seq<Seq<char>>) -> Seq<Seq<char>> {
    Seq::new(remotes.len(), |i: int| "`git remote set-head "@ + remotes[i] + " --auto`"@)
}

/// What is found of the anchors of the advertisement.
pub open spec fn anchors_finding(
    advertised: Seq<Seq<char>>,
    missing: Seq<Seq<char>>,
    freshest: Option<i64>,
    now: int,
) -> CheckView {
    let days = match freshest {
        Some(secs) => Some(days_since(secs as int, now)),
        None => None,
    };
    let found = if missing.len() > 0 {
        finding(
            "anchors"@,
            WARN@,
            "remote(s) contribute no advertisement anchor: "@ + separated(missing, ", "@),
            Some(
                "without an anchor the curated advertisement (ADR-0020) offers a cold sync no fresh delta base, so its first push sends a near-full pack. Run "@
                    + separated(set_head_commands(missing), ", "@)
                    + " to record the remote's default branch"@,
            ),
        )
    } else {
        match days {
            Some(d) => if now > 0 && d * SECONDS_PER_DAY >= ANCHOR_STALE_SECS {
                finding(
                    "anchors"@,
                    WARN@,
                    "the freshest advertised anchor is "@ + signed_decimal(d)
                        + " day(s) old \u{2014} a cold sync will delta against a stale base"@,
                    Some(
                        "the cold-sync pack size is governed by how fresh the best advertised ref is; `git fetch` in this repo to freshen its anchors"@,
                    ),
                )
            } else {
                finding(
                    "anchors"@,
                    OK@,
                    "advertising "@ + decimal(advertised.len() as int)
                        + " pattern(s); freshest anchor "@ + signed_decimal(d) + " day(s) old"@,
                    None,
                )
            },
            None => finding(
                "anchors"@,
                OK@,
                "advertising "@ + decimal(advertised.len() as int)
                    + " pattern(s); no anchor commits yet to judge freshness by"@,
                None,
            ),
        }
    };
    found.with("advertised"@, DetailView::Texts(advertised)).with(
        "freshest_anchor_age_days"@,
        match days {
            Some(d) => DetailView::Signed(d as i64),
            None => DetailView::Absent,
        },
    ).with("remotes_without_anchor"@, DetailView::Texts(missing))
}

fn set_head_list(remotes: &Vec<String>) -> (r: Vec<String>)
    ensures
        texts(r@) == set_head_commands(texts(remotes@)),
{
    let mut out: Vec<String> = Vec::new();
    let mut i: usize = 0;
    proof {
        assert(texts(out@) =~= set_head_commands(texts(remotes@).take(0)));
    }
    while i < remotes.len()
        invariant
            i <= remotes@.len(),
            texts(out@) == set_head_commands(texts(remotes@).take(i as int)),
        decreases remotes@.len() - i,
    {
        let command = concat3("`git remote set-head ", remotes[i].as_str(), " --auto`");
        push_text(&mut out, command.as_str());
        proof {
            assert(texts(out@) =~= set_head_commands(texts(remotes@).take(i + 1)));
        }
        i += 1;
    }
    proof {
        assert(texts(remotes@).take(remotes@.len() as int) =~= texts(remotes@));
    }
    out
}

/// Judges the anchors of the advertisement: every remote should have one, and
/// the freshest governs how much a first sync has to send.
pub fn check_anchors(
    advertised: &Vec<String>,
    missing: &Vec<String>,
    freshest: Option<i64>,
    now: i64,
) -> (r: Check)
    requires
        freshest matches Some(secs) ==> now - secs <= i64::MAX,
    ensures
        r@ == anchors_finding(texts(advertised@), texts(missing@), freshest, now as int),
{
    let days: Option<i64> = match freshest {
        Some(secs) => Some(age_in_days(secs, now)),
        None => None,
    };
    let found = if missing.len() > 0 {
        let mut summary = "remote(s) contribute no advertisement anchor: ".to_owned();
        let names = join_texts(missing, ", ");
        summary.append(names.as_str());
        let commands = set_head_list(missing);
        let listed = join_texts(&commands, ", ");
        let remedy = concat3(
            "without an anchor the curated advertisement (ADR-0020) offers a cold sync no fresh delta base, so its first push sends a near-full pack. Run ",
            listed.as_str(),
            " to record the remote's default branch",
        );
        Check::new("anchors", WARN, summary.as_str(), Some(remedy.as_str()))
    } else {
        match days {
            Some(d) => {
                if now > 0 && d >= ANCHOR_STALE_SECS / SECONDS_PER_DAY {
                    let mut summary = "the freshest advertised anchor is ".to_owned();
                    push_signed(&mut summary, d);
                    summary.append(
                        " day(s) old \u{2014} a cold sync will delta against a stale base",
                    );
                    Check::new(
                        "anchors",
                        WARN,
                        summary.as_str(),
                        Some(
                            "the cold-sync pack size is governed by how fresh the best advertised ref is; `git fetch` in this repo to freshen its anchors",
                        ),
                    )
                } else {
                    let mut summary = "advertising ".to_owned();
                    push_decimal(&mut summary, advertised.len() as u64);
                    summary.append(" pattern(s); freshest anchor ");
                    push_signed(&mut summary, d);
                    summary.append(" day(s) old");
                    Check::new("anchors", OK, summary.as_str(), None)
                }
            },
            None => {
                let mut summary = "advertising ".to_owned();
                push_decimal(&mut summary, advertised.len() as u64);
                summary.append(" pattern(s); no anchor commits yet to judge freshness by");
                Check::new("anchors", OK, summary.as_str(), None)
            },
        }
    };
    found.with("advertised", Detail::Texts(copy_texts(advertised))).with(
        "freshest_anchor_age_days",
        match days {
            Some(d) => Detail::Signed(d),
            None => Detail::Absent,
        },
    ).with("remotes_without_anchor", Detail::Texts(copy_texts(missing)))
}

/// The entries of a file of alternate object stores: its lines without the white
/// space around them, but for the empty ones and the comments.
pub open spec fn entries_in(lines: Seq<Seq<char>>) -> Seq<Seq<char>>
    decreases lines.len(),
{
    if lines.len() == 0 {
        Seq::empty()
    } else {
        let front = entries_in(lines.drop_last());
        let entry = trimmed(lines.last());
        if entry.len() == 0 || entry[0] == '#' {
            front
        } else {
            front.push(entry)
        }
    }
}

/// The entries of a file of alternate object stores.
pub fn alternate_entries(contents: &str) -> (r: Vec<String>)
    ensures
        texts(r@) == entries_in(lines_of(contents@)),
{
    let chars = chars_of(contents);
    let all = lines(chars.as_slice());
    let ghost names = texts(all@);
    let mut out: Vec<String> = Vec::new();
    let mut i: usize = 0;
    proof {
        assert(names.take(0) =~= Seq::<Seq<char>>::empty());
        assert(texts(out@) =~= Seq::<Seq<char>>::empty());
    }
    while i < all.len()
        invariant
            i <= all@.len(),
            names == texts(all@),
            texts(out@) == entries_in(names.take(i as int)),
        decreases all@.len() - i,
    {
        proof {
            let next = names.take(i + 1);
            assert(next.drop_last() =~= names.take(i as int));
            assert(next.last() == all@[i as int]@);
        }
        let entry = trim_text(all[i].as_str());
        let inner = chars_of(entry.as_str());
        if inner.len() > 0 && inner[0] != '#' {
            push_text(&mut out, entry.as_str());
        }
        i += 1;
    }
    proof {
        assert(names.take(names.len() as int) =~= names);
    }
    out
}

/// Where an entry points: one that is not absolute is relative to the directory
/// of the objects that names it.
pub fn resolve_alternate(objects_dir: &[u8], entry: &str) -> (r: Vec<u8>)
    ensures
        r@ == joined(objects_dir@, encode_utf8(entry@)),
{
    join_path(objects_dir, entry.as_bytes())
}

/// An entry of a file of alternate object stores.
#[derive(Debug)]
pub struct Alternate {
    /// The entry.
    pub entry: String,
    /// Whether there is a directory where it points.
    pub reachable: bool,
}

/// The entries that point nowhere.
pub open spec fn broken_in(v: Seq<Alternate>) -> Seq<Seq<char>>
    decreases v.len(),
{
    if v.len() == 0 {
        Seq::empty()
    } else if v.last().reachable {
        broken_in(v.drop_last())
    } else {
        broken_in(v.drop_last()).push(v.last().entry@)
    }
}

/// What reading a file of alternate object stores gave.
#[derive(Debug)]
pub enum Alternates {
    /// There is none.
    Missing,
    /// It could not be read, and this was said.
    Unreadable(String),
    /// It was read.
    Read(Vec<Alternate>),
}

/// What is found of the alternate object stores that the file at `path` names.
pub open spec fn alternates_finding(file: Alternates, path: Seq<char>) -> CheckView {
    match file {
        Alternates::Missing => finding(
            "alternates"@,
            OK@,
            "no alternate object stores configured"@,
            None,
        ).with("entries"@, DetailView::Count(0)),
        Alternates::Unreadable(said) => finding(
            "alternates"@,
            ERROR@,
            "could not read "@ + path + ": "@ + said@,
            Some("check the file's permissions"@),
        ),
        Alternates::Read(v) => {
            let n = v@.len();
            let broken = broken_in(v@);
            if broken.len() == 0 {
                finding(
                    "alternates"@,
                    OK@,
                    decimal(n as int) + " alternate object store(s), all reachable"@,
                    None,
                ).with("entries"@, DetailView::Count(n as u64))
            } else {
                finding(
                    "alternates"@,
                    ERROR@,
                    decimal(broken.len() as int) + " of "@ + decimal(n as int)
                        + " alternate object store(s) unreachable: "@ + separated(broken, ", "@),
                    Some(
                        "git prints `unable to normalize alternate object path` for these on every invocation and carries on. Fix or remove the offending line(s) in "@
                            + path,
                    ),
                ).with("entries"@, DetailView::Count(n as u64)).with(
                    "broken"@,
                    DetailView::Texts(broken),
                )
            }
        },
    }
}

fn broken_entries(v: &Vec<Alternate>) -> (r: Vec<String>)
    ensures
        texts(r@) == broken_in(v@),
{
    let mut out: Vec<String> = Vec::new();
    let mut i: usize = 0;
    proof {
        assert(v@.take(0) =~= Seq::<Alternate>::empty());
        assert(texts(out@) =~= Seq::<Seq<char>>::empty());
    }
    while i < v.len()
        invariant
            i <= v@.len(),
            texts(out@) == broken_in(v@.take(i as int)),
        decreases v@.len() - i,
    {
        proof {
            let next = v@.take(i + 1);
            assert(next.drop_last() =~= v@.take(i as int));
            assert(next.last() == v@[i as int]);
        }
        if !v[i].reachable {
            push_text(&mut out, v[i].entry.as_str());
        }
        i += 1;
    }
    proof {
        assert(v@.take(v@.len() as int) =~= v@);
    }
    out
}

/// Judges the alternate object stores: one that is not there makes every command
/// of git complain and go on.
pub fn check_alternates(file: &Alternates, path: &str) -> (r: Check)
    ensures
        r@ == alternates_finding(*file, path@),
{
    match file {
        Alternates::Missing => Check::new(
            "alternates",
            OK,
            "no alternate object stores configured",
            None,
        ).with("entries", Detail::Count(0)),
        Alternates::Unreadable(said) => {
            let mut summary = concat3("could not read ", path, ": ");
            summary.append(said.as_str());
            Check::new("alternates", ERROR, summary.as_str(), Some("check the file's permissions"))
        },
        Alternates::Read(v) => {
            let broken = broken_entries(v);
            let n: u64 = v.len() as u64;
            proof {
                assert(texts(broken@).len() == broken@.len());
            }
            let mut summary = String::new();
            if broken.len() == 0 {
                push_decimal(&mut summary, n);
                summary.append(" alternate object store(s), all reachable");
                proof {
                    assert(summary@ =~= decimal(n as int)
                        + " alternate object store(s), all reachable"@);
                }
                Check::new("alternates", OK, summary.as_str(), None).with(
                    "entries",
                    Detail::Count(n),
                )
            } else {
                push_decimal(&mut summary, broken.len() as u64);
                summary.append(" of ");
                push_decimal(&mut summary, n);
                summary.append(" alternate object store(s) unreachable: ");
                let listed = join_texts(&broken, ", ");
                summary.append(listed.as_str());
                proof {
                    assert(summary@ =~= decimal(broken@.len() as int) + " of "@ + decimal(n as int)
                        + " alternate object store(s) unreachable: "@ + separated(
                        broken_in(v@),
                        ", "@,
                    ));
                }
                let mut remedy =
                    "git prints `unable to normalize alternate object path` for these on every invocation and carries on. Fix or remove the offending line(s) in ".to_owned();
                remedy.append(path);
                Check::new("alternates", ERROR, summary.as_str(), Some(remedy.as_str())).with(
                    "entries",
                    Detail::Count(n),
                ).with("broken", Detail::Texts(broken))
            }
        },
    }
}

/// Whether a file has the name of a pack: something, then a dot and `pack`.
pub open spec fn is_pack(name: Seq<u8>) -> bool {
    name.len() > 5 && name.subrange(name.len() - 5, name.len() as int) == seq![
        46u8,
        112,
        97,
        99,
        107,
    ]
}

/// Whether a byte is a hexadecimal digit.
pub open spec fn is_hex_byte(b: u8) -> bool {
    48 <= b <= 57 || 65 <= b <= 70 || 97 <= b <= 102
}

/// Whether a directory has the name of one that holds loose objects: two
/// hexadecimal digits.
pub open spec fn is_fanout(name: Seq<u8>) -> bool {
    name.len() == 2 && is_hex_byte(name[0]) && is_hex_byte(name[1])
}

/// How many of the names are those of packs.
pub open spec fn count_packs(names: Seq<Seq<u8>>) -> nat
    decreases names.len(),
{
    if names.len() == 0 {
        0
    } else {
        count_packs(names.drop_last()) + if is_pack(names.last()) {
            1nat
        } else {
            0nat
        }
    }
}

/// How many of the names are those of directories of loose objects.
pub open spec fn count_fanout(names: Seq<Seq<u8>>) -> nat
    decreases names.len(),
{
    if names.len() == 0 {
        0
    } else {
        count_fanout(names.drop_last()) + if is_fanout(names.last()) {
            1nat
        } else {
            0nat
        }
    }
}

fn has_pack_name(name: &[u8]) -> (r: bool)
    ensures
        r == is_pack(name@),
{
    let n: usize = name.len();
    let r = n > 5 && name[n - 5] == 46 && name[n - 4] == 112 && name[n - 3] == 97 && name[n - 2]
        == 99 && name[n - 1] == 107;
    proof {
        if n > 5 {
            let end = name@.subrange(n - 5, n as int);
            if r {
                assert(end =~= seq![46u8, 112, 97, 99, 107]);
            } else if end == seq![46u8, 112, 97, 99, 107] {
                assert(end[0] == name@[n - 5]);
                assert(end[1] == name@[n - 4]);
                assert(end[2] == name@[n - 3]);
                assert(end[3] == name@[n - 2]);
                assert(end[4] == name@[n - 1]);
            }
        }
    }
    r
}

fn is_hex_digit(b: u8) -> (r: bool)
    ensures
        r == is_hex_byte(b),
{
    (48 <= b && b <= 57) || (65 <= b && b <= 70) || (97 <= b && b <= 102)
}

fn packs_among(names: &Vec<Vec<u8>>) -> (r: usize)
    ensures
        r == count_packs(rows(names@)),
{
    let ghost all = rows(names@);
    let mut n: usize = 0;
    let mut i: usize = 0;
    proof {
        assert(all.take(0) =~= Seq::<Seq<u8>>::empty());
    }
    while i < names.len()
        invariant
            i <= names@.len(),
            all == rows(names@),
            n <= i,
            n == count_packs(all.take(i as int)),
        decreases names@.len() - i,
    {
        proof {
            let next = all.take(i + 1);
            assert(next.drop_last() =~= all.take(i as int));
            assert(next.last() == names@[i as int]@);
        }
        if has_pack_name(names[i].as_slice()) {
            n += 1;
        }
        i += 1;
    }
    proof {
        assert(all.take(all.len() as int) =~= all);
    }
    n
}

fn fanout_among(names: &Vec<Vec<u8>>) -> (r: usize)
    ensures
        r == count_fanout(rows(names@)),
{
    let ghost all = rows(names@);
    let mut n: usize = 0;
    let mut i: usize = 0;
    proof {
        assert(all.take(0) =~= Seq::<Seq<u8>>::empty());
    }
    while i < names.len()
        invariant
            i <= names@.len(),
            all == rows(names@),
            n <= i,
            n == count_fanout(all.take(i as int)),
        decreases names@.len() - i,
    {
        proof {
            let next = all.take(i + 1);
            assert(next.drop_last() =~= all.take(i as int));
            assert(next.last() == names@[i as int]@);
        }
        let name = names[i].as_slice();
        if name.len() == 2 && is_hex_digit(name[0]) && is_hex_digit(name[1]) {
            n += 1;
        }
        i += 1;
    }
    proof {
        assert(all.take(all.len() as int) =~= all);
    }
    n
}

/// What to do about many packs.
pub const PACKS_REMEDY: &'static str =
    "more than 50 packs slows every object lookup; `git gc` (or `git repack -ad`) when no sync is in flight";

/// What is found of the objects: the names in the directory of packs and in that
/// of objects.
pub open spec fn objects_finding(packs: nat, fanout: nat) -> CheckView {
    finding(
        "objects"@,
        if packs > PACK_WARN_COUNT {
            WARN@
        } else {
            OK@
        },
        decimal(packs as int) + " pack(s); loose objects in "@ + decimal(fanout as int)
            + "/256 fanout director(ies)"@,
        if packs > PACK_WARN_COUNT {
            Some(PACKS_REMEDY@)
        } else {
            None
        },
    ).with("packs"@, DetailView::Count(packs as u64)).with(
        "loose_fanout_dirs"@,
        DetailView::Count(fanout as u64),
    )
}

/// Counts packs and the directories of loose objects, by the names in the
/// directory of packs and in that of objects.
pub fn check_objects(pack_dir: &Vec<Vec<u8>>, objects_dir: &Vec<Vec<u8>>) -> (r: Check)
    ensures
        r@ == objects_finding(count_packs(rows(pack_dir@)), count_fanout(rows(objects_dir@))),
{
    let packs: usize = packs_among(pack_dir);
    let fanout: usize = fanout_among(objects_dir);
    let mut summary = String::new();
    push_decimal(&mut summary, packs as u64);
    summary.append(" pack(s); loose objects in ");
    push_decimal(&mut summary, fanout as u64);
    summary.append("/256 fanout director(ies)");
    proof {
        assert(summary@ =~= decimal(packs as int) + " pack(s); loose objects in "@ + decimal(
            fanout as int,
        ) + "/256 fanout director(ies)"@);
    }
    let (status, remedy) = if packs > PACK_WARN_COUNT {
        (WARN, Some(PACKS_REMEDY))
    } else {
        (OK, None)
    };
    Check::new("objects", status, summary.as_str(), remedy).with(
        "packs",
        Detail::Count(packs as u64),
    ).with("loose_fanout_dirs", Detail::Count(fanout as u64))
}

/// What is found of `receive.autogc`.
pub open spec fn autogc_finding(configured: Option<bool>) -> CheckView {
    finding(
        "receive_autogc"@,
        OK@,
        match configured {
            Some(true) =>
                "receive.autogc is on in this repo; git-full-send disables it for its own receives"@,
            Some(false) => "receive.autogc is off"@,
            None =>
                "receive.autogc unset (git's default is on); git-full-send disables it for its own receives"@,
        },
        None,
    ).with(
        "configured"@,
        match configured {
            Some(on) => DetailView::Flag(on),
            None => DetailView::Absent,
        },
    )
}

/// Says whether the repository asks for garbage collection behind a push. This
/// is only worth knowing: it is turned off for the pushes served here.
pub fn check_autogc(configured: Option<bool>) -> (r: Check)
    ensures
        r@ == autogc_finding(configured),
{
    let summary = match configured {
        Some(true) =>
            "receive.autogc is on in this repo; git-full-send disables it for its own receives",
        Some(false) => "receive.autogc is off",
        None =>
            "receive.autogc unset (git's default is on); git-full-send disables it for its own receives",
    };
    let value = match configured {
        Some(on) => Detail::Flag(on),
        None => Detail::Absent,
    };
    Check::new("receive_autogc", OK, summary, None).with("configured", value)
}

/// What is said of the index that is kept for a worktree.
pub open spec fn index_note(bytes: Option<u64>) -> Seq<char> {
    match bytes {
        Some(n) => "per-worktree index present ("@ + size_text(n as nat) + ")"@,
        None => "no per-worktree index yet (the first checkout will be a full one)"@,
    }
}

/// What to do about a checkout over the working tree of the repository.
pub const WORKTREE_REMEDY: &'static str =
    "update-worktree is authoritative and destructive (ADR-0008): it stomps edits and removes untracked non-ignored files in that tree. Check out into a dedicated, disposable directory unless you mean this.";

/// What is found of a worktree.
pub open spec fn worktree_finding(own: bool, index_bytes: Option<u64>) -> CheckView {
    let found = if own {
        finding(
            "worktree"@,
            WARN@,
            "the target worktree is this repository's own working tree; "@ + index_note(
                index_bytes,
            ),
            Some(WORKTREE_REMEDY@),
        )
    } else {
        finding(
            "worktree"@,
            OK@,
            "dedicated worktree directory; "@ + index_note(index_bytes),
            None,
        )
    };
    found.with("is_repo_own_worktree"@, DetailView::Flag(own)).with(
        "index_bytes"@,
        match index_bytes {
            Some(n) => DetailView::Count(n),
            None => DetailView::Absent,
        },
    )
}

/// Judges a worktree: whether it is the working tree of the repository itself, and
/// what index is kept for it. The paths are absolute and without links, where they
/// could be resolved.
pub fn check_worktree(
    worktree: Option<&[u8]>,
    repo_workdir: Option<&[u8]>,
    index_bytes: Option<u64>,
) -> (r: Check)
    ensures
        r@ == worktree_finding(
            worktree matches Some(w) && repo_workdir matches Some(o) && w@ == o@,
            index_bytes,
        ),
{
    let own = match (worktree, repo_workdir) {
        (Some(w), Some(o)) => same_bytes(w, o),
        _ => false,
    };
    let note = match index_bytes {
        Some(n) => {
            let size = format_bytes(n);
            concat3("per-worktree index present (", size.as_str(), ")")
        },
        None => "no per-worktree index yet (the first checkout will be a full one)".to_owned(),
    };
    let value = match index_bytes {
        Some(n) => Detail::Count(n),
        None => Detail::Absent,
    };
    let found = if own {
        let mut summary =
            "the target worktree is this repository's own working tree; ".to_owned();
        summary.append(note.as_str());
        Check::new("worktree", WARN, summary.as_str(), Some(WORKTREE_REMEDY))
    } else {
        let mut summary = "dedicated worktree directory; ".to_owned();
        summary.append(note.as_str());
        Check::new("worktree", OK, summary.as_str(), None)
    };
    found.with("is_repo_own_worktree", Detail::Flag(own)).with("index_bytes", value)
}

/// What to do about patterns that match at any depth.
pub const PATTERNS_REMEDY: &'static str =
    "an unanchored pattern can match at any depth, so the selection walk cannot prune a single directory and scans the whole working tree every sync. Anchor them with a leading `/` or a path prefix (`/dist/`, `web-client/dist/`).";

/// What is found of the force-include patterns: those that match at any depth, or
/// what the attempt to read them said.
pub open spec fn patterns_finding(read: Result<Seq<Seq<char>>, Seq<char>>) -> CheckView {
    match read {
        Err(said) => finding(
            "include_patterns"@,
            WARN@,
            "could not read the force-include patterns: "@ + said,
            None,
        ),
        Ok(patterns) => if patterns.len() == 0 {
            finding("include_patterns"@, OK@, "no unanchored force-include patterns"@, None)
        } else {
            finding(
                "include_patterns"@,
                WARN@,
                decimal(patterns.len() as int) + " unanchored force-include pattern(s): "@
                    + separated(patterns, ", "@),
                Some(PATTERNS_REMEDY@),
            ).with("patterns"@, DetailView::Texts(patterns))
        },
    }
}

/// What was read.
pub open spec fn read_view(read: Result<Vec<String>, String>) -> Result<Seq<Seq<char>>, Seq<char>> {
    match read {
        Ok(v) => Ok(texts(v@)),
        Err(e) => Err(e@),
    }
}

/// Where the patterns are looked for: at the root of the working tree of the
/// repository, or of the worktree where there are none.
pub open spec fn patterns_read(
    own: Result<Vec<String>, String>,
    worktree: Option<Result<Vec<String>, String>>,
) -> Result<Seq<Seq<char>>, Seq<char>> {
    match worktree {
        Some(other) => if own matches Ok(v) && v@.len() == 0 {
            read_view(other)
        } else {
            read_view(own)
        },
        None => read_view(own),
    }
}

fn judge_patterns(read: &Result<Vec<String>, String>) -> (r: Check)
    ensures
        r@ == patterns_finding(read_view(*read)),
{
    match read {
        Err(said) => {
            let mut summary = "could not read the force-include patterns: ".to_owned();
            summary.append(said.as_str());
            Check::new("include_patterns", WARN, summary.as_str(), None)
        },
        Ok(patterns) => {
            proof {
                assert(texts(patterns@).len() == patterns@.len());
            }
            if patterns.len() == 0 {
                Check::new("include_patterns", OK, "no unanchored force-include patterns", None)
            } else {
                let mut summary = String::new();
                push_decimal(&mut summary, patterns.len() as u64);
                summary.append(" unanchored force-include pattern(s): ");
                let listed = join_texts(patterns, ", ");
                summary.append(listed.as_str());
                proof {
                    assert(summary@ =~= decimal(patterns@.len() as int)
                        + " unanchored force-include pattern(s): "@ + separated(
                        texts(patterns@),
                        ", "@,
                    ));
                }
                Check::new("include_patterns", WARN, summary.as_str(), Some(PATTERNS_REMEDY)).with(
                    "patterns",
                    Detail::Texts(copy_texts(patterns)),
                )
            }
        },
    }
}

/// Judges the force-include patterns of the repository, or of the worktree where
/// the repository has none: one that matches at any depth makes every sync walk
/// through the whole working tree.
pub fn include_pattern_check(
    own: &Result<Vec<String>, String>,
    worktree: &Option<Result<Vec<String>, String>>,
) -> (r: Check)
    ensures
        r@ == patterns_finding(patterns_read(*own, *worktree)),
{
    match worktree {
        Some(other) => match own {
            Ok(v) => if v.len() == 0 {
                judge_patterns(other)
            } else {
                judge_patterns(own)
            },
            Err(_) => judge_patterns(own),
        },
        None => judge_patterns(own),
    }
}

/// The report of the findings on a repository, and on a worktree where one is
/// given.
pub fn doctor(
    repo: String,
    worktree: Option<String>,
    refs: Check,
    anchors: Check,
    alternates: Check,
    objects: Check,
    autogc: Check,
    own_worktree: Option<Check>,
) -> (r: DoctorReport)
    ensures
        r.repo == repo,
        r.worktree == worktree,
        r.checks@ == seq![refs, anchors, alternates, objects, autogc] + match own_worktree {
            Some(check) => seq![check],
            None => Seq::empty(),
        },
{
    let mut checks: Vec<Check> = Vec::new();
    checks.push(refs);
    checks.push(anchors);
    checks.push(alternates);
    checks.push(objects);
    checks.push(autogc);
    match own_worktree {
        Some(check) => {
            checks.push(check);
        },
        None => {},
    }
    DoctorReport { repo, worktree, checks }
}

/// What is worth saying unasked where a server starts.
#[derive(Debug, Clone, Copy, PartialEq, Eq, Structural)]
pub struct StartupFindings {
    /// Whether the refs make every connection costly.
    pub many_refs: bool,
    /// Whether an alternate object store is broken.
    pub broken_alternates: bool,
}

/// What is worth saying unasked where a server starts: what is cheap to know and
/// costly to ignore.
pub fn startup_findings(refs: &Check, alternates: &Check) -> (r: StartupFindings)
    ensures
        r.many_refs == (refs@.status == WARN@),
        r.broken_alternates == (alternates@.status == ERROR@),
{
    StartupFindings {
        many_refs: refs.has_status(WARN),
        broken_alternates: alternates.has_status(ERROR),
    }
}

proof fn lemma_inserted_ascends(
    table: Seq<(Seq<char>, DetailView)>,
    key: Seq<char>,
    value: DetailView,
)
    requires
        keys_ascend(table),
    ensures
        keys_ascend(inserted(table, key, value)),
{
    let i = lemma_place(table, key, 0);
    lemma_inserted_at(table, key, value, i);
    if i < table.len() && table[i].0 == key {
        let next = table.update(i, (key, value));
        assert forall|a: int, b: int| 0 <= a < b < next.len() implies text_before(
            (#[trigger] next[a]).0,
            (#[trigger] next[b]).0,
        ) by {
            assert(next[a].0 == table[a].0 && next[b].0 == table[b].0);
        }
    } else {
        if i < table.len() {
            lemma_text_before_is_total(table[i].0, key);
        }
        lemma_insert_ascends(table, key, value, i);
    }
}

proof fn lemma_place(table: Seq<(Seq<char>, DetailView)>, key: Seq<char>, from: int) -> (i: int)
    requires
        0 <= from <= table.len(),
        forall|k: int| 0 <= k < from ==> text_before((#[trigger] table[k]).0, key),
    ensures
        from <= i <= table.len(),
        forall|k: int| 0 <= k < i ==> text_before((#[trigger] table[k]).0, key),
        i < table.len() ==> !text_before(table[i].0, key),
    decreases table.len() - from,
{
    if from < table.len() && text_before(table[from].0, key) {
        lemma_place(table, key, from + 1)
    } else {
        from
    }
}

/// The values behind a finding stay in the order of their names, each name once,
/// whatever is added.
pub proof fn law_details_stay_in_order(check: CheckView, key: Seq<char>, value: DetailView)
    requires
        keys_ascend(check.detail),
    ensures
        keys_ascend(check.with(key, value).detail),
        check.with(key, value).detail.contains((key, value)),
{
    lemma_inserted_ascends(check.detail, key, value);
    let i = lemma_place(check.detail, key, 0);
    lemma_inserted_at(check.detail, key, value, i);
    assert(check.with(key, value).detail[i] == (key, value));
}

proof fn lemma_with_keeps(
    check: CheckView,
    key: Seq<char>,
    value: DetailView,
    other: Seq<char>,
    kept: DetailView,
)
    requires
        keys_ascend(check.detail),
        check.detail.contains((other, kept)),
        other != key,
    ensures
        check.with(key, value).detail.contains((other, kept)),
{
    let table = check.detail;
    let i = lemma_place(table, key, 0);
    lemma_inserted_at(table, key, value, i);
    let k = choose|k: int| 0 <= k < table.len() && table[k] == (other, kept);
    let next = check.with(key, value).detail;
    if i < table.len() && table[i].0 == key {
        assert(next[k] == (other, kept));
    } else if k < i {
        assert(next[k] == (other, kept));
    } else {
        assert(next[k + 1] == (other, kept));
    }
}

/// A finding without values, with two values under different names.
proof fn lemma_two_details(
    check: CheckView,
    a: Seq<char>,
    x: DetailView,
    b: Seq<char>,
    y: DetailView,
)
    requires
        check.detail.len() == 0,
        a != b,
    ensures
        check.with(a, x).detail.contains((a, x)),
        keys_ascend(check.with(a, x).detail),
        check.with(a, x).with(b, y).detail.contains((a, x)),
        check.with(a, x).with(b, y).detail.contains((b, y)),
        keys_ascend(check.with(a, x).with(b, y).detail),
{
    law_details_stay_in_order(check, a, x);
    law_details_stay_in_order(check.with(a, x), b, y);
    lemma_with_keeps(check.with(a, x), b, y, a, x);
}

proof fn lemma_three_details(
    check: CheckView,
    a: Seq<char>,
    x: DetailView,
    b: Seq<char>,
    y: DetailView,
    c: Seq<char>,
    z: DetailView,
)
    requires
        check.detail.len() == 0,
        a != b,
        a != c,
        b != c,
    ensures
        check.with(a, x).with(b, y).with(c, z).detail.contains((a, x)),
        check.with(a, x).with(b, y).with(c, z).detail.contains((b, y)),
        check.with(a, x).with(b, y).with(c, z).detail.contains((c, z)),
{
    lemma_two_details(check, a, x, b, y);
    let two = check.with(a, x).with(b, y);
    law_details_stay_in_order(two, c, z);
    lemma_with_keeps(two, c, z, a, x);
    lemma_with_keeps(two, c, z, b, y);
}

proof fn lemma_verdicts_differ()
    ensures
        "ok"@ != "warn"@,
        "ok"@ != "error"@,
        "warn"@ != "error"@,
{
    reveal_strlit("ok");
    reveal_strlit("warn");
    reveal_strlit("error");
    assert("ok"@.len() == 2 && "warn"@.len() == 4 && "error"@.len() == 5);
}

/// A name that is put anew among values takes the place of the old value, and every
/// other value stays.
pub proof fn law_a_value_replaces_only_its_own_name(
    check: CheckView,
    key: Seq<char>,
    value: DetailView,
    other: Seq<char>,
    kept: DetailView,
)
    requires
        keys_ascend(check.detail),
    ensures
        check.with(key, value).detail.contains((other, kept)) <==> if other == key {
            kept == value
        } else {
            check.detail.contains((other, kept))
        },
        check.with(key, value).name == check.name,
        check.with(key, value).status == check.status,
        check.with(key, value).summary == check.summary,
        check.with(key, value).remedy == check.remedy,
{
    let table = check.detail;
    let next = check.with(key, value).detail;
    let i = lemma_place(table, key, 0);
    lemma_inserted_at(table, key, value, i);
    law_details_stay_in_order(check, key, value);
    lemma_text_before_is_total(key, key);
    if other != key && table.contains((other, kept)) {
        lemma_with_keeps(check, key, value, other, kept);
    }
    if next.contains((other, kept)) {
        let k = choose|k: int| 0 <= k < next.len() && next[k] == (other, kept);
        let at = choose|at: int| 0 <= at < next.len() && next[at] == (key, value);
        if other == key {
            assert(k == at) by {
                if k < at {
                    assert(text_before(next[k].0, next[at].0));
                } else if at < k {
                    assert(text_before(next[at].0, next[k].0));
                }
            }
        } else if i < table.len() && table[i].0 == key {
            assert(table[k] == (other, kept));
        } else if k < i {
            assert(table[k] == (other, kept));
        } else {
            assert(table[k - 1] == (other, kept));
        }
    }
}

/// The entries of a file that point nowhere, in order.
pub open spec fn unreachable_in(v: Seq<Alternate>) -> Seq<Seq<char>> {
    v.filter(|a: Alternate| !a.reachable).map_values(|a: Alternate| a.entry@)
}

proof fn lemma_broken(v: Seq<Alternate>)
    ensures
        broken_in(v) == unreachable_in(v),
        broken_in(v).len() == 0 <==> forall|i: int| 0 <= i < v.len() ==> (#[trigger] v[i]).reachable,
    decreases v.len(),
{
    reveal(Seq::filter);
    let bad = |a: Alternate| !a.reachable;
    let name = |a: Alternate| a.entry@;
    if v.len() > 0 {
        let front = v.drop_last();
        let n = v.len() - 1;
        lemma_broken(front);
        assert(v[n] == v.last());
        if !v.last().reachable {
            assert(v.filter(bad) == front.filter(bad).push(v.last()));
            assert(v.filter(bad).map_values(name) =~= front.filter(bad).map_values(name).push(
                v.last().entry@,
            ));
            assert(!v[n].reachable);
        } else {
            assert(v.filter(bad) == front.filter(bad));
            if forall|i: int| 0 <= i < front.len() ==> (#[trigger] front[i]).reachable {
                assert forall|i: int| 0 <= i < v.len() implies (#[trigger] v[i]).reachable by {
                    if i < n {
                        assert(front[i] == v[i]);
                    }
                }
            } else {
                let i = choose|i: int| 0 <= i < front.len() && !(#[trigger] front[i]).reachable;
                assert(v[i] == front[i]);
            }
        }
    } else {
        assert(broken_in(v) =~= unreachable_in(v));
    }
}

/// The alternate object stores of a file that was read are an error exactly where
/// some entry points nowhere, and in order exactly where every entry points
/// somewhere. The error counts and names exactly the entries that point nowhere, in
/// order, and says what to do.
pub proof fn law_an_unreachable_alternate_is_an_error(v: Vec<Alternate>, path: Seq<char>)
    ensures
        ({
            let found = alternates_finding(Alternates::Read(v), path);
            let broken = unreachable_in(v@);
            let some = exists|i: int| 0 <= i < v@.len() && !(#[trigger] v@[i]).reachable;
            &&& found.name == "alternates"@
            &&& found.status == "error"@ <==> some
            &&& found.status == "ok"@ <==> !some
            &&& found.remedy is Some <==> some
            &&& found.detail.contains(("entries"@, DetailView::Count(v@.len() as u64)))
            &&& some ==> {
                &&& found.detail.contains(("broken"@, DetailView::Texts(broken)))
                &&& found.summary == decimal(broken.len() as int) + " of "@ + decimal(
                    v@.len() as int,
                ) + " alternate object store(s) unreachable: "@ + separated(broken, ", "@)
            }
            &&& !some ==> found.summary == decimal(v@.len() as int)
                + " alternate object store(s), all reachable"@
        }),
{
    lemma_broken(v@);
    lemma_verdicts_differ();
    reveal_strlit("entries");
    reveal_strlit("broken");
    let found = alternates_finding(Alternates::Read(v), path);
    let bare = finding("alternates"@, found.status, found.summary, found.remedy);
    lemma_two_details(
        bare,
        "entries"@,
        DetailView::Count(v@.len() as u64),
        "broken"@,
        DetailView::Texts(broken_in(v@)),
    );
}

/// A repository without a file of alternate object stores is in order, and one whose
/// file cannot be read is not.
pub proof fn law_an_unreadable_file_of_alternates_is_an_error(said: String, path: Seq<char>)
    ensures
        alternates_finding(Alternates::Missing, path).status == "ok"@,
        alternates_finding(Alternates::Missing, path).remedy is None,
        alternates_finding(Alternates::Unreadable(said), path).status == "error"@,
        alternates_finding(Alternates::Unreadable(said), path).remedy is Some,
{
}

/// The entries of a file of alternate object stores are its lines without the white
/// space around them, in order, but for those that are empty or start with a hash.
pub proof fn law_comments_are_no_entries(lines: Seq<Seq<char>>)
    ensures
        entries_in(lines) == lines.map_values(|line: Seq<char>| trimmed(line)).filter(
            |entry: Seq<char>| entry.len() > 0 && entry[0] != '#',
        ),
    decreases lines.len(),
{
    reveal(Seq::filter);
    let cut = |line: Seq<char>| trimmed(line);
    if lines.len() > 0 {
        law_comments_are_no_entries(lines.drop_last());
        assert(lines.map_values(cut).drop_last() =~= lines.drop_last().map_values(cut));
        assert(lines.map_values(cut).last() == trimmed(lines.last()));
    } else {
        assert(lines.map_values(cut) =~= Seq::empty());
    }
}

/// How much advertising refs costs is the sum over them of forty-six bytes and the
/// bytes of the name, and it is worth a warning exactly from a quarter of a mebibyte
/// on. The finding says how many refs there are and how many of them are ours.
pub proof fn law_costly_refs_are_worth_a_warning(names: Seq<Seq<char>>)
    ensures
        ({
            let found = refs_finding(names);
            let ours = names.filter(|name: Seq<char>| "refs/git-full-send/"@.is_prefix_of(name));
            let bytes = names.fold_left(0, |sum: int, name: Seq<char>|
                sum + 46 + encode_utf8(name).len());
            &&& found.name == "refs"@
            &&& found.status == "warn"@ <==> bytes >= 256 * 1024
            &&& found.status == "ok"@ <==> bytes < 256 * 1024
            &&& found.remedy is Some <==> found.status == "warn"@
            &&& found.detail.contains(("refs"@, DetailView::Count(names.len() as u64)))
            &&& found.detail.contains(("refs_ours"@, DetailView::Count(ours.len() as u64)))
            &&& found.detail.contains(
                ("advertisement_bytes_estimate"@, DetailView::Count(bytes as u64)),
            )
            &&& found.summary == decimal(names.len() as int) + " ref(s) ("@ + decimal(
                ours.len() as int,
            ) + " git-full-send's) \u{2014} about "@ + size_text(bytes as nat)
                + " of ref advertisement on every connection"@
        }),
{
    lemma_verdicts_differ();
    lemma_ref_sums(names);
    reveal_strlit("refs");
    reveal_strlit("refs_ours");
    reveal_strlit("advertisement_bytes_estimate");
    let found = refs_finding(names);
    let bare = finding("refs"@, found.status, found.summary, found.remedy);
    lemma_three_details(
        bare,
        "refs"@,
        DetailView::Count(names.len() as u64),
        "refs_ours"@,
        DetailView::Count(count_ours(names) as u64),
        "advertisement_bytes_estimate"@,
        DetailView::Count(advertisement_bytes(names) as u64),
    );
}

proof fn lemma_ref_sums(names: Seq<Seq<char>>)
    ensures
        advertisement_bytes(names) == names.fold_left(0, |sum: int, name: Seq<char>|
            sum + 46 + encode_utf8(name).len()),
        count_ours(names) == names.filter(
            |name: Seq<char>| "refs/git-full-send/"@.is_prefix_of(name),
        ).len(),
    decreases names.len(),
{
    reveal(Seq::filter);
    if names.len() > 0 {
        lemma_ref_sums(names.drop_last());
    }
}

/// The anchors are worth a warning exactly where a remote has none, or where the
/// freshest is two weeks old or older and the clock stands after the epoch. The
/// finding says how many whole days the freshest is old, and names the remotes that
/// have none.
pub proof fn law_stale_or_missing_anchors_are_worth_a_warning(
    advertised: Seq<Seq<char>>,
    missing: Seq<Seq<char>>,
    freshest: Option<i64>,
    now: i64,
)
    requires
        freshest matches Some(secs) ==> now - secs <= i64::MAX,
    ensures
        ({
            let found = anchors_finding(advertised, missing, freshest, now as int);
            let stale = freshest is Some && now > 0 && now - freshest->0 >= 14 * 24 * 60 * 60;
            &&& found.name == "anchors"@
            &&& found.status == "warn"@ <==> missing.len() > 0 || stale
            &&& found.status == "ok"@ <==> missing.len() == 0 && !stale
            &&& found.remedy is Some <==> found.status == "warn"@
            &&& found.detail.contains(("advertised"@, DetailView::Texts(advertised)))
            &&& found.detail.contains(("remotes_without_anchor"@, DetailView::Texts(missing)))
            &&& freshest is None ==> found.detail.contains(
                ("freshest_anchor_age_days"@, DetailView::Absent),
            )
            &&& freshest matches Some(secs) ==> exists|days: i64|
                {
                    &&& #[trigger] found.detail.contains(
                        ("freshest_anchor_age_days"@, DetailView::Signed(days)),
                    )
                    &&& if now < secs {
                        days == 0
                    } else {
                        days * (24 * 60 * 60) <= now - secs < (days + 1) * (24 * 60 * 60)
                    }
                }
        }),
{
    lemma_verdicts_differ();
    reveal_strlit("advertised");
    reveal_strlit("freshest_anchor_age_days");
    reveal_strlit("remotes_without_anchor");
    let found = anchors_finding(advertised, missing, freshest, now as int);
    let bare = finding("anchors"@, found.status, found.summary, found.remedy);
    let days = match freshest {
        Some(secs) => DetailView::Signed(days_since(secs as int, now as int) as i64),
        None => DetailView::Absent,
    };
    lemma_three_details(
        bare,
        "advertised"@,
        DetailView::Texts(advertised),
        "freshest_anchor_age_days"@,
        days,
        "remotes_without_anchor"@,
        DetailView::Texts(missing),
    );
    if let Some(secs) = freshest {
        let d = days_since(secs as int, now as int);
        assert(0 <= d <= i64::MAX);
        assert(found.detail.contains(
            ("freshest_anchor_age_days"@, DetailView::Signed(d as i64)),
        ));
    }
}

proof fn lemma_separated_has(v: Seq<Seq<char>>, by: Seq<char>, i: int)
    requires
        0 <= i < v.len(),
    ensures
        has_part(separated(v, by), v[i]),
    decreases v.len(),
{
    let s = separated(v, by);
    if v.len() == 1 {
        assert(s.subrange(0, v[0].len() as int) =~= v[0]);
        assert(part_at(s, v[0], 0));
    } else if i == v.len() - 1 {
        let at = s.len() - v[i].len();
        assert(s.subrange(at, at + v[i].len()) =~= v[i]);
        assert(part_at(s, v[i], at));
    } else {
        let front = separated(v.drop_last(), by);
        lemma_separated_has(v.drop_last(), by, i);
        let at = choose|at: int| #[trigger] part_at(front, v[i], at);
        assert(s.subrange(at, at + v[i].len()) =~= front.subrange(at, at + v[i].len()));
        assert(part_at(s, v[i], at));
    }
}

/// What to do about remotes without an anchor names, for each of them, the command
/// that records its default branch; and the summary names each of them.
pub proof fn law_every_remote_without_an_anchor_is_named(
    advertised: Seq<Seq<char>>,
    missing: Seq<Seq<char>>,
    freshest: Option<i64>,
    now: int,
    i: int,
)
    requires
        0 <= i < missing.len(),
    ensures
        ({
            let found = anchors_finding(advertised, missing, freshest, now);
            &&& has_part(found.summary, missing[i])
            &&& found.remedy matches Some(remedy) && has_part(
                remedy,
                "`git remote set-head "@ + missing[i] + " --auto`"@,
            )
        }),
{
    let found = anchors_finding(advertised, missing, freshest, now);
    lemma_separated_has(missing, ", "@, i);
    lemma_separated_has(set_head_commands(missing), ", "@, i);
    let names = separated(missing, ", "@);
    let head = "remote(s) contribute no advertisement anchor: "@;
    lemma_part_within(head, names, Seq::empty(), missing[i]);
    assert(head + names + Seq::empty() =~= found.summary);
    let commands = separated(set_head_commands(missing), ", "@);
    lemma_part_within(
        "without an anchor the curated advertisement (ADR-0020) offers a cold sync no fresh delta base, so its first push sends a near-full pack. Run "@,
        commands,
        " to record the remote's default branch"@,
        set_head_commands(missing)[i],
    );
}

proof fn lemma_part_within(a: Seq<char>, s: Seq<char>, b: Seq<char>, part: Seq<char>)
    requires
        has_part(s, part),
    ensures
        has_part(a + s + b, part),
{
    let i = choose|i: int| #[trigger] part_at(s, part, i);
    let whole = a + s + b;
    let at = a.len() + i;
    assert(whole.subrange(at, at + part.len()) =~= s.subrange(i, i + part.len()));
    assert(part_at(whole, part, at));
}

/// What the advertisement offers as anchors are the branches, and the anchors of the
/// remotes, where these are refs outside of ours.
pub proof fn law_branches_and_remote_anchors_are_offered(
    anchors: Seq<Seq<char>>,
    name: Seq<char>,
)
    requires
        forall|i: int|
            0 <= i < anchors.len() ==> (#[trigger] anchors[i]).len() > 0 && anchors[i].last()
                != '/' && !"refs/git-full-send/"@.is_prefix_of(anchors[i]),
    ensures
        is_advertised(seq!["refs/git-full-send/"@, "refs/heads/"@] + anchors, name)
            <==> "refs/heads/"@.is_prefix_of(name) || anchors.contains(name),
{
    let patterns = seq!["refs/git-full-send/"@, "refs/heads/"@] + anchors;
    reveal_strlit("refs/git-full-send/");
    reveal_strlit("refs/heads/");
    let ours = "refs/git-full-send/"@;
    let heads = "refs/heads/"@;
    assert(ours.is_prefix_of(ours)) by {
        assert(ours =~= ours.subrange(0, ours.len() as int));
    }
    assert(patterns[0] == ours);
    assert(patterns[1] == heads);
    assert(!ours.is_prefix_of(heads));
    if heads.is_prefix_of(name) {
        assert(is_anchor(patterns[1], name));
    }
    if anchors.contains(name) {
        let i = choose|i: int| 0 <= i < anchors.len() && anchors[i] == name;
        assert(patterns[i + 2] == anchors[i]);
        assert(is_anchor(patterns[i + 2], name));
    }
    if is_advertised(patterns, name) {
        let i = choose|i: int| 0 <= i < patterns.len() && is_anchor(#[trigger] patterns[i], name);
        if i >= 2 {
            assert(patterns[i] == anchors[i - 2]);
        }
    }
}

/// The tips that are looked at are those of the names that are offered as anchors, in
/// order, and no others.
pub proof fn law_only_offered_names_are_looked_at(
    patterns: Seq<Seq<char>>,
    names: Seq<Seq<char>>,
)
    ensures
        offered(patterns, names) == names.filter(|name: Seq<char>| is_advertised(patterns, name)),
    decreases names.len(),
{
    reveal(Seq::filter);
    if names.len() > 0 {
        law_only_offered_names_are_looked_at(patterns, names.drop_last());
    }
}

/// The anchor of a remote is what its `HEAD` points to; else its `main`, else its
/// `master`, where there is such a ref; and else there is none.
pub proof fn law_the_anchor_of_a_remote(
    remote: Seq<char>,
    head: Option<Seq<char>>,
    names: Seq<Seq<char>>,
)
    ensures
        ({
            let main = "refs/remotes/"@ + remote + "/main"@;
            let master = "refs/remotes/"@ + remote + "/master"@;
            let anchor = anchor_of(remote, head, names);
            &&& head is Some ==> anchor == head
            &&& head is None && names.contains(main) ==> anchor == Some(main)
            &&& head is None && !names.contains(main) && names.contains(master) ==> anchor
                == Some(master)
            &&& anchor is None <==> head is None && !names.contains(main) && !names.contains(
                master,
            )
        }),
{
}

/// The anchors of remotes are those that they have, in order, and the others are
/// exactly the remotes that have none, in order.
pub proof fn law_anchors_are_those_of_the_remotes(
    remotes: Seq<(Seq<char>, Option<Seq<char>>)>,
    names: Seq<Seq<char>>,
)
    ensures
        anchors_in(remotes, names) == remotes.filter(
            |r: (Seq<char>, Option<Seq<char>>)| anchor_of(r.0, r.1, names) is Some,
        ).map_values(|r: (Seq<char>, Option<Seq<char>>)| anchor_of(r.0, r.1, names)->0),
        unanchored(remotes, names) == remotes.filter(
            |r: (Seq<char>, Option<Seq<char>>)| anchor_of(r.0, r.1, names) is None,
        ).map_values(|r: (Seq<char>, Option<Seq<char>>)| r.0),
    decreases remotes.len(),
{
    reveal(Seq::filter);
    let has = |r: (Seq<char>, Option<Seq<char>>)| anchor_of(r.0, r.1, names) is Some;
    let lacks = |r: (Seq<char>, Option<Seq<char>>)| anchor_of(r.0, r.1, names) is None;
    let anchor = |r: (Seq<char>, Option<Seq<char>>)| anchor_of(r.0, r.1, names)->0;
    let name = |r: (Seq<char>, Option<Seq<char>>)| r.0;
    if remotes.len() > 0 {
        let front = remotes.drop_last();
        let last = remotes.last();
        law_anchors_are_those_of_the_remotes(front, names);
        if has(last) {
            assert(remotes.filter(has) == front.filter(has).push(last));
            assert(remotes.filter(has).map_values(anchor) =~= front.filter(has).map_values(
                anchor,
            ).push(anchor(last)));
        } else {
            assert(remotes.filter(lacks) == front.filter(lacks).push(last));
            assert(remotes.filter(lacks).map_values(name) =~= front.filter(lacks).map_values(
                name,
            ).push(name(last)));
        }
    } else {
        assert(anchors_in(remotes, names) =~= remotes.filter(has).map_values(anchor));
        assert(unanchored(remotes, names) =~= remotes.filter(lacks).map_values(name));
    }
}

proof fn lemma_pack_names(names: Seq<Seq<u8>>)
    ensures
        count_packs(names) == names.filter(
            |name: Seq<u8>|
                name.len() > 5 && name.skip(name.len() - 5) == seq![46u8, 112, 97, 99, 107],
        ).len(),
    decreases names.len(),
{
    reveal(Seq::filter);
    if names.len() > 0 {
        lemma_pack_names(names.drop_last());
        let name = names.last();
        if name.len() > 5 {
            assert(name.skip(name.len() - 5) =~= name.subrange(
                name.len() - 5,
                name.len() as int,
            ));
        }
    }
}

proof fn lemma_fanout_names(names: Seq<Seq<u8>>)
    ensures
        count_fanout(names) == names.filter(
            |name: Seq<u8>|
                name.len() == 2 && hex_value(name[0]) is Some && hex_value(name[1]) is Some,
        ).len(),
    decreases names.len(),
{
    reveal(Seq::filter);
    if names.len() > 0 {
        lemma_fanout_names(names.drop_last());
    }
}

/// More than fifty packs are worth a warning, and no fewer. A pack is a file whose
/// name is something and then `.pack`, and a directory of loose objects is one whose
/// name is two hexadecimal digits.
pub proof fn law_many_packs_are_worth_a_warning(
    pack_dir: Seq<Seq<u8>>,
    objects_dir: Seq<Seq<u8>>,
)
    ensures
        ({
            let found = objects_finding(count_packs(pack_dir), count_fanout(objects_dir));
            let packs = pack_dir.filter(
                |name: Seq<u8>|
                    name.len() > 5 && name.skip(name.len() - 5) == seq![46u8, 112, 97, 99, 107],
            ).len();
            let fanout = objects_dir.filter(
                |name: Seq<u8>|
                    name.len() == 2 && hex_value(name[0]) is Some && hex_value(name[1]) is Some,
            ).len();
            &&& found.name == "objects"@
            &&& found.status == "warn"@ <==> packs > 50
            &&& found.status == "ok"@ <==> packs <= 50
            &&& found.remedy is Some <==> packs > 50
            &&& found.detail.contains(("packs"@, DetailView::Count(packs as u64)))
            &&& found.detail.contains(("loose_fanout_dirs"@, DetailView::Count(fanout as u64)))
        }),
{
    lemma_verdicts_differ();
    lemma_pack_names(pack_dir);
    lemma_fanout_names(objects_dir);
    reveal_strlit("packs");
    reveal_strlit("loose_fanout_dirs");
    let found = objects_finding(count_packs(pack_dir), count_fanout(objects_dir));
    let bare = finding("objects"@, found.status, found.summary, found.remedy);
    lemma_two_details(
        bare,
        "packs"@,
        DetailView::Count(count_packs(pack_dir) as u64),
        "loose_fanout_dirs"@,
        DetailView::Count(count_fanout(objects_dir) as u64),
    );
}

/// Whatever `receive.autogc` says is in order; the finding says what it is.
pub proof fn law_autogc_is_only_worth_knowing(configured: Option<bool>)
    ensures
        autogc_finding(configured).name == "receive_autogc"@,
        autogc_finding(configured).status == "ok"@,
        autogc_finding(configured).remedy is None,
        configured matches Some(on) ==> autogc_finding(configured).detail.contains(
            ("configured"@, DetailView::Flag(on)),
        ),
        configured is None ==> autogc_finding(configured).detail.contains(
            ("configured"@, DetailView::Absent),
        ),
{
    let bare = finding(
        "receive_autogc"@,
        "ok"@,
        autogc_finding(configured).summary,
        None,
    );
    let value = match configured {
        Some(on) => DetailView::Flag(on),
        None => DetailView::Absent,
    };
    law_details_stay_in_order(bare, "configured"@, value);
}

/// A worktree is worth a warning exactly where it is the repository's own.
pub proof fn law_the_own_worktree_is_worth_a_warning(own: bool, index_bytes: Option<u64>)
    ensures
        ({
            let found = worktree_finding(own, index_bytes);
            &&& found.name == "worktree"@
            &&& found.status == "warn"@ <==> own
            &&& found.status == "ok"@ <==> !own
            &&& found.remedy is Some <==> own
            &&& found.detail.contains(("is_repo_own_worktree"@, DetailView::Flag(own)))
            &&& index_bytes matches Some(n) ==> found.detail.contains(
                ("index_bytes"@, DetailView::Count(n)),
            )
            &&& index_bytes is None ==> found.detail.contains(("index_bytes"@, DetailView::Absent))
        }),
{
    lemma_verdicts_differ();
    reveal_strlit("is_repo_own_worktree");
    reveal_strlit("index_bytes");
    let found = worktree_finding(own, index_bytes);
    let bare = finding("worktree"@, found.status, found.summary, found.remedy);
    let value = match index_bytes {
        Some(n) => DetailView::Count(n),
        None => DetailView::Absent,
    };
    lemma_two_details(bare, "is_repo_own_worktree"@, DetailView::Flag(own), "index_bytes"@, value);
}

/// The force-include patterns are worth a warning exactly where they cannot be read
/// or where one matches at any depth; and then all of those are named. They are those
/// of the repository, or of the worktree where one is given and the repository has
/// none.
pub proof fn law_unanchored_patterns_are_worth_a_warning(
    own: Result<Vec<String>, String>,
    worktree: Option<Result<Vec<String>, String>>,
)
    ensures
        ({
            let found = patterns_finding(patterns_read(own, worktree));
            let judged = if worktree is Some && own is Ok && own->Ok_0@.len() == 0 {
                worktree->0
            } else {
                own
            };
            &&& found.name == "include_patterns"@
            &&& found.status == "warn"@ <==> judged is Err || judged->Ok_0@.len() > 0
            &&& found.status == "ok"@ <==> judged is Ok && judged->Ok_0@.len() == 0
            &&& judged is Ok && judged->Ok_0@.len() > 0 ==> found.remedy is Some
                && found.detail.contains(("patterns"@, DetailView::Texts(texts(judged->Ok_0@))))
        }),
{
    lemma_verdicts_differ();
    let read = patterns_read(own, worktree);
    if let Ok(patterns) = read {
        let found = patterns_finding(read);
        let bare = finding("include_patterns"@, found.status, found.summary, found.remedy);
        law_details_stay_in_order(bare, "patterns"@, DetailView::Texts(patterns));
    }
}

/// The findings with a verdict are counted each once.
pub proof fn law_findings_are_counted_by_their_verdict(checks: Seq<Check>, status: Seq<char>)
    ensures
        count_status(checks, status) == checks.filter(|c: Check| c.status@ == status).len(),
    decreases checks.len(),
{
    reveal(Seq::filter);
    if checks.len() > 0 {
        law_findings_are_counted_by_their_verdict(checks.drop_last(), status);
    }
}

/// So many whole days have passed since a time, each of twenty-four hours; none
/// since a time to come.
pub proof fn law_days_are_counted_whole(secs: int, now: int)
    ensures
        secs <= now ==> days_since(secs, now) * (24 * 60 * 60) <= now - secs < (days_since(
            secs,
            now,
        ) + 1) * (24 * 60 * 60),
        now < secs ==> days_since(secs, now) == 0,
{
    let days = days_since(secs, now);
    assert(days * (24 * 60 * 60) == days * 86_400) by (nonlinear_arith);
    assert((days + 1) * (24 * 60 * 60) == days * 86_400 + 86_400) by (nonlinear_arith);
}

/// The freshest anchor is the one that was committed last: no anchor among the
/// tips is later, one of them is that late, and there is none only where no tip
/// is an anchor.
pub proof fn law_the_freshest_anchor_was_committed_last(
    patterns: Seq<Seq<char>>,
    tips: Seq<(Seq<char>, i64)>,
    r: Option<i64>,
    i: int,
)
    requires
        is_freshest(patterns, tips, r),
        0 <= i < tips.len(),
        is_advertised(patterns, tips[i].0),
    ensures
        r is Some,
        r->0 >= tips[i].1,
        exists|k: int|
            0 <= k < tips.len() && is_advertised(patterns, (#[trigger] tips[k]).0) && r == Some(
                tips[k].1,
            ),
{
}

} // verus!
