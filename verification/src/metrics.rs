//! The records that every operation leaves behind, one JSON object on a line,
//! and what can be read out of them.
//!
//! Values are doubles, known by their bits.

use vstd::prelude::*;
use vstd::utf8::encode_utf8;

use crate::bytes::{join_path, joined};
use crate::json::{json_text, parse_json, Json, JsonView};
use crate::numbers::{double_bits, double_bits_of, double_key, key_of_double};
use crate::table::{
    add_item, is_grouped, items_under, lemma_nothing_is_grouped, Row,
};
use crate::text::{chars_of, concat3, lines, lines_of, same_text, text_before, texts};

verus! {

/// The version of the shape of the records.
pub const SCHEMA_VERSION: u32 = 2;

/// The version of this tool.
pub const TOOL_VERSION: &'static str = "0.1.0";

/// The fields that every record opens with.
#[derive(Debug, Clone, Copy)]
pub struct Envelope {
    /// Which shape the record has.
    pub kind: &'static str,
    /// The version of the shape.
    pub schema: u32,
    /// When the operation finished, in milliseconds since the Unix epoch.
    pub ts_unix_ms: u64,
    /// The version of the tool that made the record.
    pub tool_version: &'static str,
}

/// `SystemTime::elapsed` of the Unix epoch, in milliseconds, or `None` where the
/// clock stands before it. Nothing is known of it.
#[verifier::external_body]
fn since_epoch_millis() -> (r: Option<u128>) {
    std::time::UNIX_EPOCH.elapsed().ok().map(|d| d.as_millis())
}

/// A distance from the Unix epoch, in milliseconds, as a record has it.
pub open spec fn millis_of(since_epoch: Option<u128>) -> u64 {
    match since_epoch {
        Some(ms) => (ms % 0x1_0000_0000_0000_0000) as u64,
        None => 0,
    }
}

/// A distance from the Unix epoch as a record has it. A clock that stands before
/// the epoch counts as standing at it.
pub fn unix_millis(since_epoch: Option<u128>) -> (r: u64)
    ensures
        r == millis_of(since_epoch),
{
    match since_epoch {
        Some(ms) => (ms % 0x1_0000_0000_0000_0000) as u64,
        None => 0,
    }
}

/// Milliseconds since the Unix epoch, as [`unix_millis`] has them. Nothing is
/// promised of what the clock says.
pub fn now_unix_millis() -> (r: u64) {
    unix_millis(since_epoch_millis())
}

/// The version that is stamped into every record.
pub fn tool_version() -> (r: &'static str)
    ensures
        r@ == TOOL_VERSION@,
{
    TOOL_VERSION
}

impl Envelope {
    /// The envelope of a record of this kind, with the time of `ts_unix_ms`.
    pub fn at(kind: &'static str, ts_unix_ms: u64) -> (r: Self)
        ensures
            r.kind@ == kind@,
            r.schema == SCHEMA_VERSION,
            r.ts_unix_ms == ts_unix_ms,
            r.tool_version@ == TOOL_VERSION@,
    {
        Envelope { kind, schema: SCHEMA_VERSION, ts_unix_ms, tool_version: tool_version() }
    }

    /// The envelope of a record of this kind that is made now.
    pub fn new(kind: &'static str) -> (r: Self)
        ensures
            r.kind@ == kind@,
            r.schema == SCHEMA_VERSION,
            r.tool_version@ == TOOL_VERSION@,
    {
        Self::at(kind, now_unix_millis())
    }
}

/// The path of the records of a repository.
pub open spec fn metrics_path_of(git_dir: Seq<u8>) -> Seq<u8> {
    joined(joined(git_dir, encode_utf8("git-full-send"@)), encode_utf8("metrics.jsonl"@))
}

/// The path of the records of a repository, by its git directory.
pub fn metrics_path(git_dir: &[u8]) -> (r: Vec<u8>)
    ensures
        r@ == metrics_path_of(git_dir@),
{
    let dir = join_path(git_dir, "git-full-send".as_bytes());
    join_path(dir.as_slice(), "metrics.jsonl".as_bytes())
}

/// The path of a member in an object at `prefix`.
pub open spec fn member_path(prefix: Seq<char>, name: Seq<char>) -> Seq<char> {
    if prefix.len() == 0 {
        name
    } else {
        prefix + "."@ + name
    }
}

/// Whether a member is left out: a time and a version are no measurements.
pub open spec fn is_skipped(name: Seq<char>) -> bool {
    name == "ts_unix_ms"@ || name == "schema"@
}

/// The numbers in a value, each with its path: numbers themselves, and for an
/// array its length.
pub open spec fn flattened(prefix: Seq<char>, value: JsonView) -> Seq<(Seq<char>, u64)>
    decreases value,
{
    match value {
        JsonView::Object(members) => flattened_members(prefix, members),
        JsonView::Number { bits, .. } => match bits {
            Some(b) => seq![(prefix, b)],
            None => Seq::empty(),
        },
        JsonView::Array(items) => seq![
            (prefix + ".len"@, double_bits_of(items.len()) as u64),
        ],
        _ => Seq::empty(),
    }
}

/// The numbers in the members of an object, each with its path.
pub open spec fn flattened_members(
    prefix: Seq<char>,
    members: Seq<(Seq<char>, JsonView)>,
) -> Seq<(Seq<char>, u64)>
    decreases members,
{
    if members.len() == 0 {
        Seq::empty()
    } else {
        let front = flattened_members(prefix, members.drop_last());
        let (name, value) = members.last();
        if is_skipped(name) {
            front
        } else {
            front + flattened(member_path(prefix, name), value)
        }
    }
}

/// The numbers in a list of records, in order.
pub open spec fn samples_of(records: Seq<JsonView>) -> Seq<(Seq<char>, u64)>
    decreases records.len(),
{
    if records.len() == 0 {
        Seq::empty()
    } else {
        samples_of(records.drop_last()) + flattened(Seq::empty(), records.last())
    }
}

/// A number, with the path of the field that holds it.
#[derive(Debug)]
pub struct Sample {
    /// The dotted path of the field.
    pub field: String,
    /// The bits of the number.
    pub bits: u64,
}

/// The pairs of a list of samples.
pub open spec fn sample_pairs(v: Seq<Sample>) -> Seq<(Seq<char>, u64)> {
    Seq::new(v.len(), |i: int| (v[i].field@, v[i].bits))
}

proof fn lemma_sample_push(v: Seq<Sample>, s: Sample)
    ensures
        sample_pairs(v.push(s)) == sample_pairs(v).push((s.field@, s.bits)),
{
    assert(sample_pairs(v.push(s)) =~= sample_pairs(v).push((s.field@, s.bits)));
}

/// Collects every number in `value`, keyed by its dotted path.
pub fn flatten_numbers(prefix: &str, value: &Json, out: &mut Vec<Sample>)
    ensures
        sample_pairs(final(out)@) == sample_pairs(old(out)@) + flattened(prefix@, value@),
    decreases value,
{
    let ghost before = sample_pairs(out@);
    match value {
        Json::Object(members) => {
            let ghost views = value@->Object_0;
            let mut i: usize = 0;
            proof {
                crate::json::lemma_object_view(*members);
                assert(views.take(0) =~= Seq::<(Seq<char>, JsonView)>::empty());
                assert(before + Seq::<(Seq<char>, u64)>::empty() =~= before);
            }
            while i < members.len()
                invariant
                    i <= members@.len(),
                    *value == Json::Object(*members),
                    views == crate::json::member_views(members@),
                    sample_pairs(out@) == before + flattened_members(
                        prefix@,
                        views.take(i as int),
                    ),
                decreases members@.len() - i,
            {
                let name = members[i].0.as_str();
                proof {
                    let next = views.take(i + 1);
                    assert(next.drop_last() =~= views.take(i as int));
                    assert(next.last() == views[i as int]);
                    assert(views[i as int] == (members@[i as int].0@, members@[i as int].1@));
                }
                if !same_text(name, "ts_unix_ms") && !same_text(name, "schema") {
                    let path = if prefix.is_empty() {
                        name.to_owned()
                    } else {
                        concat3(prefix, ".", name)
                    };
                    let ghost here = sample_pairs(out@);
                    proof {
                        let whole = *value;
                        assert(decreases_to!(whole => whole->Object_0));
                        assert(decreases_to!(whole->Object_0 => whole->Object_0@));
                        assert(decreases_to!(whole->Object_0@ => whole->Object_0@[i as int]));
                        assert(decreases_to!(whole->Object_0@[i as int] => whole->Object_0@[i as int].1));
                    }
                    flatten_numbers(path.as_str(), &members[i].1, out);
                    proof {
                        let part = flattened(path@, members@[i as int].1@);
                        assert((before + flattened_members(prefix@, views.take(i as int))) + part
                            =~= before + (flattened_members(prefix@, views.take(i as int)) + part));
                    }
                }
                i += 1;
            }
            proof {
                assert(views.take(views.len() as int) =~= views);
            }
        },
        Json::Number { bits, .. } => {
            match bits {
                Some(b) => {
                    let s = Sample { field: prefix.to_owned(), bits: *b };
                    proof {
                        lemma_sample_push(out@, s);
                        assert(before.push((prefix@, *b)) =~= before + seq![(prefix@, *b)]);
                    }
                    out.push(s);
                },
                None => {},
            }
        },
        Json::Array(items) => {
            let mut field = prefix.to_owned();
            field.append(".len");
            let s = Sample { field, bits: double_bits(items.len() as u64) };
            proof {
                lemma_sample_push(out@, s);
                assert(before.push((s.field@, s.bits)) =~= before + seq![(s.field@, s.bits)]);
                assert(value@->Array_0.len() == items@.len());
            }
            out.push(s);
        },
        _ => {},
    }
    proof {
        assert(before + Seq::<(Seq<char>, u64)>::empty() =~= before);
    }
}

/// `s`, which ascends, with `x` behind all that are not greater.
pub open spec fn with_double(s: Seq<u64>, x: u64) -> Seq<u64>
    decreases s.len(),
{
    if s.len() == 0 || double_key(s.last()) <= double_key(x) {
        s.push(x)
    } else {
        with_double(s.drop_last(), x).push(s.last())
    }
}

/// The doubles of a list, in order; those that are equal stay as they were.
pub open spec fn sorted_doubles(v: Seq<u64>) -> Seq<u64>
    decreases v.len(),
{
    if v.len() == 0 {
        v
    } else {
        with_double(sorted_doubles(v.drop_last()), v.last())
    }
}

/// The rank of the median of `n` values.
pub open spec fn median_rank(n: int) -> int {
    n / 2
}

/// The rank of the 95th percentile of `n` values: the nearest to nineteen
/// twentieths of the way, the upper one halfway.
pub open spec fn p95_rank(n: int) -> int {
    (19 * (n - 1) + 10) / 20
}

/// How the values of one field are distributed.
#[derive(Debug)]
pub struct FieldStats {
    /// The dotted path of the field.
    pub field: String,
    /// How many values there are.
    pub count: usize,
    /// The bits of the median.
    pub p50: u64,
    /// The bits of the 95th percentile.
    pub p95: u64,
    /// The bits of the greatest value.
    pub max: u64,
}

/// What is known of the records of one kind.
#[derive(Debug)]
pub struct KindStats {
    /// The kind.
    pub kind: String,
    /// How many records there are.
    pub records: usize,
    /// The fields that hold numbers, in the order of their names.
    pub fields: Vec<FieldStats>,
}

/// Whether `f` says how `values` are distributed.
pub open spec fn describes(f: FieldStats, values: Seq<u64>) -> bool {
    let sorted = sorted_doubles(values);
    let n = values.len() as int;
    &&& f.count == n
    &&& f.p50 == sorted[median_rank(n)]
    &&& f.p95 == sorted[p95_rank(n)]
    &&& f.max == sorted[n - 1]
}

/// Whether `fields` describe the fields of `samples`, each once and in the order
/// of their names.
pub open spec fn describe_fields(
    fields: Seq<FieldStats>,
    samples: Seq<(Seq<char>, u64)>,
) -> bool {
    &&& forall|i: int, j: int|
        0 <= i < j < fields.len() ==> text_before(
            (#[trigger] fields[i]).field@,
            (#[trigger] fields[j]).field@,
        )
    &&& forall|i: int|
        0 <= i < fields.len() ==> {
            let values = items_under(samples, (#[trigger] fields[i]).field@);
            values.len() > 0 && describes(fields[i], values)
        }
    &&& forall|k: int|
        0 <= k < samples.len() ==> has_field(fields, (#[trigger] samples[k]).0)
}

/// Whether a field of this name is described.
pub open spec fn has_field(fields: Seq<FieldStats>, name: Seq<char>) -> bool {
    exists|i: int| 0 <= i < fields.len() && (#[trigger] fields[i]).field@ == name
}

proof fn lemma_with_double(s: Seq<u64>, x: u64, p: int)
    requires
        0 <= p <= s.len(),
        p > 0 ==> double_key(s[p - 1]) <= double_key(x),
        forall|k: int| p <= k < s.len() ==> double_key(#[trigger] s[k]) > double_key(x),
    ensures
        with_double(s, x) == s.insert(p, x),
    decreases s.len(),
{
    if p == s.len() {
        assert(s.insert(p, x) =~= s.push(x));
    } else {
        assert(double_key(s[s.len() - 1]) > double_key(x));
        lemma_with_double(s.drop_last(), x, p);
        assert(s.drop_last().insert(p, x).push(s.last()) =~= s.insert(p, x));
    }
}

proof fn lemma_with_double_is(s: Seq<u64>, x: u64)
    requires
        forall|i: int, j: int|
            0 <= i < j < s.len() ==> double_key(#[trigger] s[i]) <= double_key(#[trigger] s[j]),
    ensures
        with_double(s, x).len() == s.len() + 1,
        with_double(s, x).to_multiset() == s.to_multiset().insert(x),
        forall|i: int, j: int|
            0 <= i < j < s.len() + 1 ==> double_key(#[trigger] with_double(s, x)[i]) <= double_key(
                #[trigger] with_double(s, x)[j],
            ),
        with_double(s, x).last() == x || (s.len() > 0 && with_double(s, x).last() == s.last()),
    decreases s.len(),
{
    broadcast use vstd::seq_lib::group_to_multiset_ensures;

    if s.len() > 0 && double_key(s.last()) > double_key(x) {
        let front = s.drop_last();
        lemma_with_double_is(front, x);
        let inner = with_double(front, x);
        assert(front.push(s.last()) =~= s);
        assert(with_double(s, x).to_multiset() =~= s.to_multiset().insert(x));
        assert forall|i: int, j: int| 0 <= i < j < s.len() + 1 implies double_key(
            #[trigger] with_double(s, x)[i],
        ) <= double_key(#[trigger] with_double(s, x)[j]) by {
            let whole = inner.push(s.last());
            if j == s.len() {
                assert(whole[i] == inner[i]);
                assert(double_key(inner.last()) <= double_key(s.last())) by {
                    if inner.last() != x {
                        assert(inner.last() == front.last());
                        assert(front.last() == s[s.len() - 2]);
                    }
                }
                if i < inner.len() - 1 {
                    assert(double_key(inner[i]) <= double_key(inner[inner.len() - 1]));
                }
            } else {
                assert(whole[i] == inner[i] && whole[j] == inner[j]);
            }
        }
    } else {
        assert forall|i: int, j: int| 0 <= i < j < s.len() + 1 implies double_key(
            #[trigger] with_double(s, x)[i],
        ) <= double_key(#[trigger] with_double(s, x)[j]) by {
            if j == s.len() {
                if i < s.len() - 1 {
                    assert(double_key(s[i]) <= double_key(s[s.len() - 1]));
                }
            }
        }
        assert(with_double(s, x).to_multiset() =~= s.to_multiset().insert(x));
    }
}

/// Sorting keeps every value and puts them in order, so that the percentiles are
/// values that were recorded.
pub proof fn law_sorting_keeps_the_values(v: Seq<u64>)
    ensures
        sorted_doubles(v).len() == v.len(),
        sorted_doubles(v).to_multiset() == v.to_multiset(),
        forall|i: int, j: int|
            0 <= i < j < v.len() ==> double_key(#[trigger] sorted_doubles(v)[i]) <= double_key(
                #[trigger] sorted_doubles(v)[j],
            ),
    decreases v.len(),
{
    broadcast use vstd::seq_lib::group_to_multiset_ensures;

    if v.len() > 0 {
        law_sorting_keeps_the_values(v.drop_last());
        lemma_with_double_is(sorted_doubles(v.drop_last()), v.last());
        assert(v.drop_last().push(v.last()) =~= v);
    }
}

/// The values of a list, in order.
fn sort_doubles(v: &Vec<u64>) -> (r: Vec<u64>)
    ensures
        r@ == sorted_doubles(v@),
        r@.len() == v@.len(),
{
    let mut out: Vec<u64> = Vec::new();
    let mut i: usize = 0;
    proof {
        assert(v@.take(0) =~= Seq::<u64>::empty());
        assert(out@ =~= Seq::<u64>::empty());
    }
    while i < v.len()
        invariant
            i <= v@.len(),
            out@ == sorted_doubles(v@.take(i as int)),
            out@.len() == i,
        decreases v@.len() - i,
    {
        let x: u64 = v[i];
        let key: i64 = key_of_double(x);
        let mut p: usize = out.len();
        while p > 0 && key_of_double(out[p - 1]) > key
            invariant
                p <= out@.len(),
                key == double_key(x),
                forall|k: int| p <= k < out@.len() ==> double_key(#[trigger] out@[k]) > double_key(x),
            decreases p,
        {
            p -= 1;
        }
        proof {
            lemma_with_double(out@, x, p as int);
            let next = v@.take(i + 1);
            assert(next.drop_last() =~= v@.take(i as int));
            assert(next.last() == x);
        }
        out.insert(p, x);
        i += 1;
    }
    proof {
        assert(v@.take(v@.len() as int) =~= v@);
    }
    out
}

fn describe(name: &str, values: &Vec<u64>) -> (r: FieldStats)
    requires
        values@.len() > 0,
    ensures
        r.field@ == name@,
        describes(r, values@),
{
    let sorted = sort_doubles(values);
    let n: usize = sorted.len();
    let rank: usize = ((19 * (n as u128 - 1) + 10) / 20) as usize;
    FieldStats {
        field: name.to_owned(),
        count: n,
        p50: sorted[n / 2],
        p95: sorted[rank],
        max: sorted[n - 1],
    }
}

/// Describes the fields of samples.
pub fn field_stats(samples: &Vec<Sample>) -> (r: Vec<FieldStats>)
    ensures
        describe_fields(r@, sample_pairs(samples@)),
{
    let ghost pairs = sample_pairs(samples@);
    let mut rows: Vec<Row<u64>> = Vec::new();
    let mut i: usize = 0;
    proof {
        lemma_nothing_is_grouped::<u64>();
        assert(pairs.take(0) =~= Seq::<(Seq<char>, u64)>::empty());
        assert(rows@ =~= Seq::<Row<u64>>::empty());
    }
    while i < samples.len()
        invariant
            i <= samples@.len(),
            pairs == sample_pairs(samples@),
            is_grouped(rows@, pairs.take(i as int)),
        decreases samples@.len() - i,
    {
        add_item(
            &mut rows,
            samples[i].field.as_str(),
            samples[i].bits,
            Ghost(pairs.take(i as int)),
        );
        proof {
            assert(pairs.take(i + 1) =~= pairs.take(i as int).push(pairs[i as int]));
        }
        i += 1;
    }
    proof {
        assert(pairs.take(pairs.len() as int) =~= pairs);
    }
    let mut out: Vec<FieldStats> = Vec::new();
    let mut j: usize = 0;
    while j < rows.len()
        invariant
            j <= rows@.len(),
            out@.len() == j,
            is_grouped(rows@, pairs),
            forall|k: int|
                0 <= k < j ==> (#[trigger] out@[k]).field@ == rows@[k].name@ && describes(
                    out@[k],
                    rows@[k].items@,
                ),
        decreases rows@.len() - j,
    {
        proof {
            assert(rows@[j as int].items@.len() > 0);
        }
        out.push(describe(rows[j].name.as_str(), &rows[j].items));
        j += 1;
    }
    proof {
        assert forall|a: int, b: int| 0 <= a < b < out@.len() implies text_before(
            (#[trigger] out@[a]).field@,
            (#[trigger] out@[b]).field@,
        ) by {
            assert(text_before(rows@[a].name@, rows@[b].name@));
        }
        assert forall|k: int| 0 <= k < pairs.len() implies has_field(
            out@,
            (#[trigger] pairs[k]).0,
        ) by {
            assert(crate::table::has_row(rows@, pairs[k].0));
            let r = choose|r: int| 0 <= r < rows@.len() && (#[trigger] rows@[r]).name@ == pairs[k].0;
            assert(out@[r].field@ == rows@[r].name@);
        }
    }
    out
}

/// The kind of a record.
pub open spec fn kind_of(record: JsonView) -> Seq<char> {
    match record.member("kind"@) {
        Some(value) => match value.as_text() {
            Some(kind) => kind,
            None => "unknown"@,
        },
        None => "unknown"@,
    }
}

/// The records that are wanted, each by its kind and its place.
pub open spec fn wanted_records(records: Seq<JsonView>, kind: Option<Seq<char>>) -> Seq<
    (Seq<char>, usize),
>
    decreases records.len(),
{
    if records.len() == 0 {
        Seq::empty()
    } else {
        let front = wanted_records(records.drop_last(), kind);
        let here = kind_of(records.last());
        if kind is Some && kind->0 != here {
            front
        } else {
            front.push((here, (records.len() - 1) as usize))
        }
    }
}

/// The last of `v`, as many as `last` says, or all.
pub open spec fn window<T>(v: Seq<T>, last: Option<usize>) -> Seq<T> {
    match last {
        Some(n) => if v.len() > n {
            v.skip(v.len() - n)
        } else {
            v
        },
        None => v,
    }
}

/// The records at these places.
pub open spec fn records_at(records: Seq<JsonView>, places: Seq<usize>) -> Seq<JsonView> {
    Seq::new(places.len(), |i: int| records[places[i] as int])
}

/// Whether a kind of this name is described.
pub open spec fn has_kind(kinds: Seq<KindStats>, name: Seq<char>) -> bool {
    exists|i: int| 0 <= i < kinds.len() && (#[trigger] kinds[i]).kind@ == name
}

/// Whether `kinds` describe the records of the wanted kind, or of every kind,
/// each kind once and in the order of their names, and of each kind only the
/// `last` records.
pub open spec fn describe_kinds(
    kinds: Seq<KindStats>,
    records: Seq<JsonView>,
    kind: Option<Seq<char>>,
    last: Option<usize>,
) -> bool {
    let wanted = wanted_records(records, kind);
    &&& forall|i: int, j: int|
        0 <= i < j < kinds.len() ==> text_before(
            (#[trigger] kinds[i]).kind@,
            (#[trigger] kinds[j]).kind@,
        )
    &&& forall|i: int|
        0 <= i < kinds.len() ==> {
            let places = items_under(wanted, (#[trigger] kinds[i]).kind@);
            let kept = window(places, last);
            &&& places.len() > 0
            &&& kinds[i].records == kept.len()
            &&& describe_fields(kinds[i].fields@, samples_of(records_at(records, kept)))
        }
    &&& forall|k: int| 0 <= k < wanted.len() ==> has_kind(kinds, (#[trigger] wanted[k]).0)
}

/// The views of a list of records.
pub open spec fn record_views(v: Seq<Json>) -> Seq<JsonView> {
    Seq::new(v.len(), |i: int| v[i]@)
}

fn record_kind(record: &Json) -> (r: String)
    ensures
        r@ == kind_of(record@),
{
    match record.get("kind") {
        Some(value) => match value.as_str() {
            Some(kind) => kind.to_owned(),
            None => "unknown".to_owned(),
        },
        None => "unknown".to_owned(),
    }
}

/// The samples of the records at these places.
fn samples_at(records: &Vec<Json>, places: &Vec<usize>, from: usize) -> (r: Vec<Sample>)
    requires
        from <= places@.len(),
        forall|i: int| 0 <= i < places@.len() ==> (#[trigger] places@[i]) < records@.len(),
    ensures
        sample_pairs(r@) == samples_of(
            records_at(record_views(records@), places@.skip(from as int)),
        ),
{
    let mut out: Vec<Sample> = Vec::new();
    let ghost kept = records_at(record_views(records@), places@.skip(from as int));
    let mut i: usize = from;
    proof {
        assert(kept.take(0) =~= Seq::<JsonView>::empty());
        assert(sample_pairs(out@) =~= Seq::<(Seq<char>, u64)>::empty());
    }
    while i < places.len()
        invariant
            from <= i <= places@.len(),
            kept == records_at(record_views(records@), places@.skip(from as int)),
            forall|k: int| 0 <= k < places@.len() ==> (#[trigger] places@[k]) < records@.len(),
            sample_pairs(out@) == samples_of(kept.take(i - from)),
        decreases places@.len() - i,
    {
        let place: usize = places[i];
        proof {
            let next = kept.take(i + 1 - from);
            assert(next.drop_last() =~= kept.take(i - from));
            assert(next.last() == records@[place as int]@);
            reveal_strlit("");
            assert(""@ =~= Seq::<char>::empty());
        }
        flatten_numbers("", &records[place], &mut out);
        i += 1;
    }
    proof {
        assert(kept.take(kept.len() as int) =~= kept);
    }
    out
}

/// Describes records: for each kind, how the numbers in its fields are
/// distributed. Only records of `kind` count, where it is given, and of each
/// kind only the `last` ones, where that is given.
pub fn aggregate_records(records: &Vec<Json>, kind: Option<&str>, last: Option<usize>) -> (r: Vec<
    KindStats,
>)
    ensures
        describe_kinds(
            r@,
            record_views(records@),
            match kind {
                Some(k) => Some(k@),
                None => None,
            },
            last,
        ),
{
    let ghost views = record_views(records@);
    let ghost want = match kind {
        Some(k) => Some(k@),
        None => None,
    };
    let mut rows: Vec<Row<usize>> = Vec::new();
    let mut i: usize = 0;
    proof {
        lemma_nothing_is_grouped::<usize>();
        assert(views.take(0) =~= Seq::<JsonView>::empty());
        assert(rows@ =~= Seq::<Row<usize>>::empty());
    }
    while i < records.len()
        invariant
            i <= records@.len(),
            views == record_views(records@),
            want == match kind {
                Some(k) => Some(k@),
                None => None,
            },
            is_grouped(rows@, wanted_records(views.take(i as int), want)),
        decreases records@.len() - i,
    {
        let here = record_kind(&records[i]);
        proof {
            let next = views.take(i + 1);
            assert(next.drop_last() =~= views.take(i as int));
            assert(next.last() == records@[i as int]@);
        }
        let wanted = match kind {
            Some(k) => same_text(k, here.as_str()),
            None => true,
        };
        if wanted {
            add_item(
                &mut rows,
                here.as_str(),
                i,
                Ghost(wanted_records(views.take(i as int), want)),
            );
        }
        i += 1;
    }
    let ghost pairs = wanted_records(views, want);
    proof {
        assert(views.take(views.len() as int) =~= views);
    }
    let mut out: Vec<KindStats> = Vec::new();
    let mut j: usize = 0;
    let total: usize = records.len();
    while j < rows.len()
        invariant
            j <= rows@.len(),
            out@.len() == j,
            total == records@.len(),
            views == record_views(records@),
            pairs == wanted_records(views, want),
            is_grouped(rows@, pairs),
            forall|k: int|
                0 <= k < j ==> {
                    let kept = window(rows@[k].items@, last);
                    &&& (#[trigger] out@[k]).kind@ == rows@[k].name@
                    &&& out@[k].records == kept.len()
                    &&& describe_fields(out@[k].fields@, samples_of(records_at(views, kept)))
                },
        decreases rows@.len() - j,
    {
        let places = &rows[j].items;
        let from: usize = match last {
            Some(n) => if places.len() > n {
                places.len() - n
            } else {
                0
            },
            None => 0,
        };
        proof {
            assert(places@ == items_under(pairs, rows@[j as int].name@));
            assert forall|k: int| 0 <= k < places@.len() implies (#[trigger] places@[k])
                < records@.len() by {
                lemma_places(views, want, rows@[j as int].name@, k);
            }
            assert(places@.skip(from as int) =~= window(places@, last));
        }
        let samples = samples_at(records, places, from);
        out.push(
            KindStats {
                kind: rows[j].name.clone(),
                records: places.len() - from,
                fields: field_stats(&samples),
            },
        );
        j += 1;
    }
    proof {
        assert forall|a: int, b: int| 0 <= a < b < out@.len() implies text_before(
            (#[trigger] out@[a]).kind@,
            (#[trigger] out@[b]).kind@,
        ) by {
            assert(text_before(rows@[a].name@, rows@[b].name@));
        }
        assert forall|k: int| 0 <= k < pairs.len() implies has_kind(
            out@,
            (#[trigger] pairs[k]).0,
        ) by {
            assert(crate::table::has_row(rows@, pairs[k].0));
            let r = choose|r: int| 0 <= r < rows@.len() && (#[trigger] rows@[r]).name@ == pairs[k].0;
            assert(out@[r].kind@ == rows@[r].name@);
        }
    }
    out
}

proof fn lemma_places(records: Seq<JsonView>, kind: Option<Seq<char>>, name: Seq<char>, k: int)
    requires
        records.len() <= usize::MAX,
        0 <= k < items_under(wanted_records(records, kind), name).len(),
    ensures
        items_under(wanted_records(records, kind), name)[k] < records.len(),
    decreases records.len(),
{
    let all = wanted_records(records, kind);
    let front = wanted_records(records.drop_last(), kind);
    let here = kind_of(records.last());
    if records.len() > 0 {
        if !(kind is Some && kind->0 != here) {
            assert(all.drop_last() =~= front);
        }
        if k < items_under(front, name).len() {
            lemma_places(records.drop_last(), kind, name, k);
        }
    }
}

/// The values of the lines that are JSON, in order.
pub open spec fn parsed_lines(lines: Seq<Seq<char>>) -> Seq<JsonView>
    decreases lines.len(),
{
    if lines.len() == 0 {
        Seq::empty()
    } else {
        match json_text(lines.last()) {
            Some(value) => parsed_lines(lines.drop_last()).push(value),
            None => parsed_lines(lines.drop_last()),
        }
    }
}

/// The values of the lines of a text that are JSON; the others are skipped.
pub fn parse_lines(contents: &str) -> (r: Vec<Json>)
    ensures
        record_views(r@) == parsed_lines(lines_of(contents@)),
{
    let chars = chars_of(contents);
    let all = lines(chars.as_slice());
    let ghost texts_all = texts(all@);
    let mut out: Vec<Json> = Vec::new();
    let mut i: usize = 0;
    proof {
        assert(texts_all.take(0) =~= Seq::<Seq<char>>::empty());
        assert(record_views(out@) =~= Seq::<JsonView>::empty());
    }
    while i < all.len()
        invariant
            i <= all@.len(),
            texts_all == texts(all@),
            record_views(out@) == parsed_lines(texts_all.take(i as int)),
        decreases all@.len() - i,
    {
        proof {
            let next = texts_all.take(i + 1);
            assert(next.drop_last() =~= texts_all.take(i as int));
            assert(next.last() == all@[i as int]@);
        }
        if let Some(value) = parse_json(all[i].as_str()) {
            proof {
                assert(record_views(out@.push(value)) =~= record_views(out@).push(value@));
            }
            out.push(value);
        }
        i += 1;
    }
    proof {
        assert(texts_all.take(texts_all.len() as int) =~= texts_all);
    }
    out
}

/// As [`aggregate_records`], on the text of a file of records. A line that is
/// not JSON is skipped.
pub fn aggregate(contents: &str, kind: Option<&str>, last: Option<usize>) -> (r: Vec<KindStats>)
    ensures
        describe_kinds(
            r@,
            parsed_lines(lines_of(contents@)),
            match kind {
                Some(k) => Some(k@),
                None => None,
            },
            last,
        ),
{
    let records = parse_lines(contents);
    aggregate_records(&records, kind, last)
}

/// The median, the 95th percentile and the greatest value of a field are values
/// that the field had, in ascending order, and no value is above the greatest.
pub proof fn law_percentiles_are_recorded_values(f: FieldStats, values: Seq<u64>)
    requires
        values.len() > 0,
        describes(f, values),
    ensures
        values.contains(f.p50),
        values.contains(f.p95),
        values.contains(f.max),
        double_key(f.p50) <= double_key(f.p95) <= double_key(f.max),
        forall|i: int| 0 <= i < values.len() ==> double_key(#[trigger] values[i]) <= double_key(f.max),
{
    broadcast use vstd::seq_lib::group_to_multiset_ensures;

    law_sorting_keeps_the_values(values);
    let sorted = sorted_doubles(values);
    let n = values.len() as int;
    assert(0 <= median_rank(n) <= p95_rank(n) <= n - 1) by {
        assert(20 * (n / 2) <= 10 * n);
        if n == 1 {
        } else if n == 2 {
        }
    }
    assert(sorted.contains(f.p50));
    assert(sorted.contains(f.p95));
    assert(sorted.contains(f.max));
    assert forall|x: u64| sorted.contains(x) == values.contains(x) by {
        assert(sorted.to_multiset().count(x) == values.to_multiset().count(x));
    }
    assert forall|i: int| 0 <= i < values.len() implies double_key(#[trigger] values[i])
        <= double_key(f.max) by {
        assert(values.contains(values[i]));
        let k = choose|k: int| 0 <= k < sorted.len() && sorted[k] == values[i];
        if k < n - 1 {
            assert(double_key(sorted[k]) <= double_key(sorted[n - 1]));
        }
    }
}

/// A window keeps the most recent records, and no more of them than it says.
pub proof fn law_a_window_keeps_the_most_recent<T>(v: Seq<T>, n: usize)
    ensures
        window(v, Some(n)).len() == if v.len() > n {
            n as int
        } else {
            v.len() as int
        },
        window(v, Some(n)).is_suffix_of(v),
{
    let kept = window(v, Some(n));
    assert(kept =~= v.subrange(v.len() - kept.len(), v.len() as int));
}

/// How many of the values are less than `x`.
pub open spec fn count_less(values: Seq<u64>, x: u64) -> nat {
    values.filter(|v: u64| double_key(v) < double_key(x)).len()
}

/// How many of the values are at most `x`.
pub open spec fn count_up_to(values: Seq<u64>, x: u64) -> nat {
    values.filter(|v: u64| double_key(v) <= double_key(x)).len()
}

/// Whether `x` is one of the values, and stands at `rank` where they are put in
/// order: no more than so many are less, and more than so many are not greater.
pub open spec fn has_rank(values: Seq<u64>, x: u64, rank: int) -> bool {
    values.contains(x) && count_less(values, x) <= rank < count_up_to(values, x)
}

proof fn lemma_with_double_counts(s: Seq<u64>, x: u64, p: spec_fn(u64) -> bool)
    ensures
        with_double(s, x).filter(p).len() == s.filter(p).len() + if p(x) {
            1int
        } else {
            0
        },
    decreases s.len(),
{
    reveal(Seq::filter);
    if s.len() == 0 || double_key(s.last()) <= double_key(x) {
        assert(s.push(x).drop_last() =~= s);
    } else {
        let inner = with_double(s.drop_last(), x);
        lemma_with_double_counts(s.drop_last(), x, p);
        assert(inner.push(s.last()).drop_last() =~= inner);
    }
}

proof fn lemma_sorting_keeps_counts(v: Seq<u64>, p: spec_fn(u64) -> bool)
    ensures
        sorted_doubles(v).filter(p).len() == v.filter(p).len(),
    decreases v.len(),
{
    reveal(Seq::filter);
    if v.len() > 0 {
        lemma_sorting_keeps_counts(v.drop_last(), p);
        lemma_with_double_counts(sorted_doubles(v.drop_last()), v.last(), p);
    }
}

proof fn lemma_filter_all(s: Seq<u64>, p: spec_fn(u64) -> bool)
    ensures
        (forall|i: int| 0 <= i < s.len() ==> p(#[trigger] s[i])) ==> s.filter(p).len() == s.len(),
        (forall|i: int| 0 <= i < s.len() ==> !p(#[trigger] s[i])) ==> s.filter(p).len() == 0,
        s.filter(p).len() <= s.len(),
    decreases s.len(),
{
    reveal(Seq::filter);
    if s.len() > 0 {
        let front = s.drop_last();
        lemma_filter_all(front, p);
        if forall|i: int| 0 <= i < s.len() ==> p(#[trigger] s[i]) {
            assert forall|i: int| 0 <= i < front.len() implies p(#[trigger] front[i]) by {
                assert(front[i] == s[i]);
            }
            assert(p(s[s.len() - 1]));
        }
        if forall|i: int| 0 <= i < s.len() ==> !p(#[trigger] s[i]) {
            assert forall|i: int| 0 <= i < front.len() implies !p(#[trigger] front[i]) by {
                assert(front[i] == s[i]);
            }
            assert(!p(s[s.len() - 1]));
        }
    }
}

proof fn lemma_has_rank(values: Seq<u64>, rank: int)
    requires
        0 <= rank < values.len(),
    ensures
        has_rank(values, sorted_doubles(values)[rank], rank),
{
    broadcast use vstd::seq_lib::group_to_multiset_ensures;

    law_sorting_keeps_the_values(values);
    let sorted = sorted_doubles(values);
    let x = sorted[rank];
    let less = |v: u64| double_key(v) < double_key(x);
    let upto = |v: u64| double_key(v) <= double_key(x);
    lemma_sorting_keeps_counts(values, less);
    lemma_sorting_keeps_counts(values, upto);
    assert(values.contains(x)) by {
        assert(sorted.contains(x));
        assert(sorted.to_multiset().count(x) == values.to_multiset().count(x));
    }
    let a = sorted.take(rank);
    let b = sorted.skip(rank);
    assert(sorted =~= a + b);
    Seq::filter_distributes_over_add(a, b, less);
    assert forall|i: int| 0 <= i < b.len() implies !less(#[trigger] b[i]) by {
        assert(b[i] == sorted[rank + i]);
        if i > 0 {
            assert(double_key(sorted[rank]) <= double_key(sorted[rank + i]));
        }
    }
    lemma_filter_all(b, less);
    lemma_filter_all(a, less);
    let c = sorted.take(rank + 1);
    let d = sorted.skip(rank + 1);
    assert(sorted =~= c + d);
    Seq::filter_distributes_over_add(c, d, upto);
    assert forall|i: int| 0 <= i < c.len() implies upto(#[trigger] c[i]) by {
        assert(c[i] == sorted[i]);
        if i < rank {
            assert(double_key(sorted[i]) <= double_key(sorted[rank]));
        }
    }
    lemma_filter_all(c, upto);
}

/// The median and the 95th percentile are the values of nearest rank: among `n`
/// values in order, the ones that stand nearest to half of the way and to nineteen
/// twentieths of the way from the least to the greatest, the upper one of two that
/// are as near. The greatest value stands at the end.
pub proof fn law_percentiles_have_the_nearest_rank(f: FieldStats, values: Seq<u64>)
    requires
        values.len() > 0,
        describes(f, values),
    ensures
        f.count == values.len(),
        exists|k: int| #[trigger]
            has_rank(values, f.p50, k) && -1 < 2 * k - (values.len() - 1) <= 1,
        exists|k: int| #[trigger]
            has_rank(values, f.p95, k) && -10 < 20 * k - 19 * (values.len() - 1) <= 10,
        has_rank(values, f.max, values.len() - 1),
{
    let n = values.len() as int;
    lemma_has_rank(values, median_rank(n));
    lemma_has_rank(values, p95_rank(n));
    lemma_has_rank(values, n - 1);
    assert(has_rank(values, f.p50, median_rank(n)));
    assert(has_rank(values, f.p95, p95_rank(n)));
}

/// At most about a twentieth of the values are greater than the 95th percentile, and
/// at most half of them are greater than the median.
pub proof fn law_few_values_are_above_the_percentiles(f: FieldStats, values: Seq<u64>)
    requires
        values.len() > 0,
        describes(f, values),
    ensures
        20 * (values.len() - count_up_to(values, f.p95)) < values.len() + 10,
        2 * (values.len() - count_up_to(values, f.p50)) <= values.len(),
        20 * count_less(values, f.p95) <= 19 * values.len(),
        2 * count_less(values, f.p50) <= values.len(),
{
    law_percentiles_have_the_nearest_rank(f, values);
    let k = choose|k: int| #[trigger]
        has_rank(values, f.p95, k) && -10 < 20 * k - 19 * (values.len() - 1) <= 10;
    let m = choose|m: int| #[trigger]
        has_rank(values, f.p50, m) && -1 < 2 * m - (values.len() - 1) <= 1;
}

/// The field of a number is the path to it: the names on the way, with dots between
/// them.
pub open spec fn dotted(names: Seq<Seq<char>>) -> Seq<char>
    decreases names.len(),
{
    if names.len() == 0 {
        Seq::empty()
    } else if dotted(names.drop_last()).len() == 0 {
        names.last()
    } else {
        dotted(names.drop_last()) + "."@ + names.last()
    }
}

/// Whether names lead from a value to `leaf`, each to a member of the object before
/// it, and none of them to a time or a version.
pub open spec fn reaches(value: JsonView, names: Seq<Seq<char>>, leaf: JsonView) -> bool
    decreases names.len(),
{
    if names.len() == 0 {
        value == leaf
    } else {
        names[0] != "ts_unix_ms"@ && names[0] != "schema"@ && (
        value matches JsonView::Object(members) && exists|i: int|
            0 <= i < members.len() && (#[trigger] members[i]).0 == names[0] && reaches(
                members[i].1,
                names.skip(1),
                leaf,
            ))
    }
}

/// Whether a leaf gives a number for the field that leads to it: a number gives
/// itself, and an array its length, for the field with `.len` behind it.
pub open spec fn gives(leaf: JsonView, path: Seq<char>, sample: (Seq<char>, u64)) -> bool {
    match leaf {
        JsonView::Number { bits, .. } => bits == Some(sample.1) && sample.0 == path,
        JsonView::Array(items) => sample.0 == path + ".len"@ && sample.1 == double_bits_of(
            items.len(),
        ) as u64,
        _ => false,
    }
}

proof fn lemma_flattened_members(
    prefix: Seq<char>,
    members: Seq<(Seq<char>, JsonView)>,
    sample: (Seq<char>, u64),
)
    ensures
        flattened_members(prefix, members).contains(sample) <==> exists|i: int|
            0 <= i < members.len() && !is_skipped((#[trigger] members[i]).0) && flattened(
                member_path(prefix, members[i].0),
                members[i].1,
            ).contains(sample),
    decreases members.len(),
{
    if members.len() > 0 {
        let front = members.drop_last();
        let n = members.len() - 1;
        let (name, value) = members.last();
        lemma_flattened_members(prefix, front, sample);
        let a = flattened_members(prefix, front);
        let b = flattened(member_path(prefix, name), value);
        if a.contains(sample) {
            let k = choose|k: int| 0 <= k < a.len() && a[k] == sample;
            assert((a + b)[k] == sample);
            let i = choose|i: int|
                0 <= i < front.len() && !is_skipped((#[trigger] front[i]).0) && flattened(
                    member_path(prefix, front[i].0),
                    front[i].1,
                ).contains(sample);
            assert(members[i] == front[i]);
        }
        if b.contains(sample) {
            let k = choose|k: int| 0 <= k < b.len() && b[k] == sample;
            assert((a + b)[a.len() + k] == sample);
            assert(members[n] == (name, value));
        }
        if (a + b).contains(sample) {
            let k = choose|k: int| 0 <= k < (a + b).len() && (a + b)[k] == sample;
            if k < a.len() {
                assert(a[k] == sample);
            } else {
                assert(b[k - a.len()] == sample);
            }
        }
        if exists|i: int|
            0 <= i < members.len() && !is_skipped((#[trigger] members[i]).0) && flattened(
                member_path(prefix, members[i].0),
                members[i].1,
            ).contains(sample) {
            let i = choose|i: int|
                0 <= i < members.len() && !is_skipped((#[trigger] members[i]).0) && flattened(
                    member_path(prefix, members[i].0),
                    members[i].1,
                ).contains(sample);
            if i < n {
                assert(front[i] == members[i]);
            }
        }
    }
}

proof fn lemma_flattened(above: Seq<Seq<char>>, value: JsonView, sample: (Seq<char>, u64))
    ensures
        flattened(dotted(above), value).contains(sample) <==> exists|
            names: Seq<Seq<char>>,
            leaf: JsonView,
        | #[trigger]
            reaches(value, names, leaf) && gives(leaf, dotted(above + names), sample),
    decreases value,
{
    let none = Seq::<Seq<char>>::empty();
    assert(above + none =~= above);
    match value {
        JsonView::Object(members) => {
            let prefix = dotted(above);
            lemma_flattened_members(prefix, members, sample);
            assert forall|i: int| 0 <= i < members.len() implies flattened(
                member_path(prefix, (#[trigger] members[i]).0),
                members[i].1,
            ).contains(sample) == exists|names: Seq<Seq<char>>, leaf: JsonView| #[trigger]
                reaches(members[i].1, names, leaf) && gives(
                    leaf,
                    dotted(above.push(members[i].0) + names),
                    sample,
                ) by {
                assert(above.push(members[i].0).drop_last() =~= above);
                assert(dotted(above.push(members[i].0)) =~= member_path(prefix, members[i].0));
                lemma_flattened(above.push(members[i].0), members[i].1, sample);
            }
            if flattened(prefix, value).contains(sample) {
                let i = choose|i: int|
                    0 <= i < members.len() && !is_skipped((#[trigger] members[i]).0) && flattened(
                        member_path(prefix, members[i].0),
                        members[i].1,
                    ).contains(sample);
                let (names, leaf) = choose|names: Seq<Seq<char>>, leaf: JsonView| #[trigger]
                    reaches(members[i].1, names, leaf) && gives(
                        leaf,
                        dotted(above.push(members[i].0) + names),
                        sample,
                    );
                let path = seq![members[i].0] + names;
                assert(path.skip(1) =~= names);
                assert(above + path =~= above.push(members[i].0) + names);
                assert(reaches(value, path, leaf));
            }
            if exists|names: Seq<Seq<char>>, leaf: JsonView| #[trigger]
                reaches(value, names, leaf) && gives(leaf, dotted(above + names), sample) {
                let (names, leaf) = choose|names: Seq<Seq<char>>, leaf: JsonView| #[trigger]
                    reaches(value, names, leaf) && gives(leaf, dotted(above + names), sample);
                assert(names.len() > 0);
                let i = choose|i: int|
                    0 <= i < members.len() && (#[trigger] members[i]).0 == names[0] && reaches(
                        members[i].1,
                        names.skip(1),
                        leaf,
                    );
                assert(above.push(members[i].0) + names.skip(1) =~= above + names);
                assert(!is_skipped(members[i].0));
            }
        },
        _ => {
            let all = flattened(dotted(above), value);
            assert(reaches(value, none, value));
            if all.contains(sample) {
                assert(gives(value, dotted(above + none), sample));
            }
            if exists|names: Seq<Seq<char>>, leaf: JsonView| #[trigger]
                reaches(value, names, leaf) && gives(leaf, dotted(above + names), sample) {
                let (names, leaf) = choose|names: Seq<Seq<char>>, leaf: JsonView| #[trigger]
                    reaches(value, names, leaf) && gives(leaf, dotted(above + names), sample);
                assert(names.len() == 0);
                assert(names =~= none);
                assert(all.len() == 1 && all[0] == sample);
            }
        },
    }
}

/// The samples of a record are its numbers and the lengths of its arrays, at whatever
/// depth of objects, each under the dotted path to it; times and versions are left
/// out, with all that is in them.
pub proof fn law_every_number_of_a_record_is_a_sample(
    record: JsonView,
    sample: (Seq<char>, u64),
)
    ensures
        flattened(Seq::empty(), record).contains(sample) <==> exists|
            names: Seq<Seq<char>>,
            leaf: JsonView,
        | #[trigger]
            reaches(record, names, leaf) && gives(leaf, dotted(names), sample),
{
    let none = Seq::<Seq<char>>::empty();
    lemma_flattened(none, record, sample);
    assert forall|names: Seq<Seq<char>>| #[trigger] (none + names) == names by {
        assert(none + names =~= names);
    }
    if exists|names: Seq<Seq<char>>, leaf: JsonView| #[trigger]
        reaches(record, names, leaf) && gives(leaf, dotted(names), sample) {
        let (names, leaf) = choose|names: Seq<Seq<char>>, leaf: JsonView| #[trigger]
            reaches(record, names, leaf) && gives(leaf, dotted(names), sample);
        assert(none + names == names);
        assert(reaches(record, names, leaf) && gives(leaf, dotted(none + names), sample));
    }
    if flattened(Seq::empty(), record).contains(sample) {
        let (names, leaf) = choose|names: Seq<Seq<char>>, leaf: JsonView| #[trigger]
            reaches(record, names, leaf) && gives(leaf, dotted(none + names), sample);
        assert(none + names == names);
        assert(reaches(record, names, leaf) && gives(leaf, dotted(names), sample));
    }
}

/// The samples of records are those of each, the earlier records first.
pub proof fn law_samples_are_those_of_each_record(a: Seq<JsonView>, b: Seq<JsonView>)
    ensures
        samples_of(a + b) == samples_of(a) + samples_of(b),
        a.len() == 1 ==> samples_of(a) == flattened(Seq::empty(), a[0]),
    decreases b.len(),
{
    if a.len() == 1 {
        assert(a.drop_last() =~= Seq::<JsonView>::empty());
        assert(samples_of(a.drop_last()) + flattened(Seq::empty(), a[0]) =~= flattened(
            Seq::empty(),
            a[0],
        ));
    }
    if b.len() == 0 {
        assert(a + b =~= a);
        assert(samples_of(a) + samples_of(b) =~= samples_of(a));
    } else {
        assert((a + b).drop_last() =~= a + b.drop_last());
        law_samples_are_those_of_each_record(a, b.drop_last());
        assert(samples_of(a + b) =~= samples_of(a) + samples_of(b));
    }
}

/// A record is of the kind that its member `kind` names, where that is a text, and
/// else of an unknown kind.
pub proof fn law_a_record_says_its_kind(record: JsonView, members: Seq<(Seq<char>, JsonView)>)
    requires
        record == JsonView::Object(members),
    ensures
        forall|i: int|
            0 <= i < members.len() && (#[trigger] members[i]).0 == "kind"@ && (forall|j: int|
                0 <= j < i ==> (#[trigger] members[j]).0 != "kind"@) ==> kind_of(record)
                == match members[i].1 {
                JsonView::Text(kind) => kind,
                _ => "unknown"@,
            },
        (forall|i: int| 0 <= i < members.len() ==> (#[trigger] members[i]).0 != "kind"@)
            ==> kind_of(record) == "unknown"@,
{
    crate::json::law_the_first_member_of_a_name_counts(members, "kind"@);
}

proof fn lemma_wanted(records: Seq<JsonView>, kind: Option<Seq<char>>, name: Seq<char>)
    requires
        records.len() <= usize::MAX,
        kind is None || kind == Some(name),
    ensures
        records_at(records, items_under(wanted_records(records, kind), name)) == records.filter(
            |r: JsonView| kind_of(r) == name,
        ),
        forall|k: int|
            0 <= k < items_under(wanted_records(records, kind), name).len() ==> (
            #[trigger] items_under(wanted_records(records, kind), name)[k]) < records.len(),
    decreases records.len(),
{
    reveal(Seq::filter);
    let of = |r: JsonView| kind_of(r) == name;
    let places = items_under(wanted_records(records, kind), name);
    if records.len() > 0 {
        let front = records.drop_last();
        let last = records.last();
        lemma_wanted(front, kind, name);
        let before = items_under(wanted_records(front, kind), name);
        assert forall|k: int| 0 <= k < before.len() implies records[(#[trigger] before[k]) as int]
            == front[before[k] as int] by {
            assert(before[k] < front.len());
        }
        let all = wanted_records(records, kind);
        if !(kind is Some && kind->0 != kind_of(last)) {
            assert(all.drop_last() =~= wanted_records(front, kind));
        }
        if kind_of(last) == name {
            assert(places == before.push((records.len() - 1) as usize));
            assert(records_at(records, places) =~= records_at(front, before).push(last));
        } else {
            assert(places == before);
            assert(records_at(records, places) =~= records_at(front, before));
        }
    } else {
        assert(records_at(records, places) =~= records.filter(of));
    }
}

/// What is described of each kind are the records of that kind, in order, and of them
/// the most recent ones, no more than asked for. A kind is described exactly where
/// some record is of it, and where it is the kind that was asked for, if one was.
pub proof fn law_each_kind_is_described_by_its_most_recent_records(
    kinds: Seq<KindStats>,
    records: Seq<JsonView>,
    kind: Option<Seq<char>>,
    last: Option<usize>,
    name: Seq<char>,
)
    requires
        records.len() <= usize::MAX,
        describe_kinds(kinds, records, kind, last),
    ensures
        (exists|i: int| 0 <= i < kinds.len() && (#[trigger] kinds[i]).kind@ == name) <==> (kind
            is None || kind == Some(name)) && exists|k: int|
            0 <= k < records.len() && kind_of(#[trigger] records[k]) == name,
        forall|i: int|
            0 <= i < kinds.len() && (#[trigger] kinds[i]).kind@ == name ==> {
                let all = records.filter(|r: JsonView| kind_of(r) == name);
                let n = if last is Some && last->0 < all.len() {
                    last->0 as int
                } else {
                    all.len() as int
                };
                &&& kinds[i].records == n
                &&& describe_fields(kinds[i].fields@, samples_of(all.skip(all.len() - n)))
            },
{
    let wanted = wanted_records(records, kind);
    lemma_wanted_kinds(records, kind, name);
    assert forall|i: int| 0 <= i < kinds.len() && (#[trigger] kinds[i]).kind@ == name implies {
        let all = records.filter(|r: JsonView| kind_of(r) == name);
        let n = if last is Some && last->0 < all.len() {
            last->0 as int
        } else {
            all.len() as int
        };
        &&& kinds[i].records == n
        &&& describe_fields(kinds[i].fields@, samples_of(all.skip(all.len() - n)))
        &&& kind is None || kind == Some(name)
    } by {
        let places = items_under(wanted, name);
        let kept = window(places, last);
        assert(places.len() > 0);
        lemma_wanted(records, kind, name);
        let all = records.filter(|r: JsonView| kind_of(r) == name);
        assert(all.len() == places.len());
        assert(records_at(records, kept) =~= all.skip(all.len() - kept.len()));
    }
    if exists|i: int| 0 <= i < kinds.len() && (#[trigger] kinds[i]).kind@ == name {
        let i = choose|i: int| 0 <= i < kinds.len() && (#[trigger] kinds[i]).kind@ == name;
        assert(items_under(wanted, kinds[i].kind@).len() > 0);
    }
    if (kind is None || kind == Some(name)) && exists|k: int|
        0 <= k < records.len() && kind_of(#[trigger] records[k]) == name {
        let k = choose|k: int| 0 <= k < wanted.len() && (#[trigger] wanted[k]).0 == name;
        assert(has_kind(kinds, wanted[k].0));
    }
}

proof fn lemma_wanted_kinds(records: Seq<JsonView>, kind: Option<Seq<char>>, name: Seq<char>)
    ensures
        ((kind is None || kind == Some(name)) && exists|k: int|
            0 <= k < records.len() && kind_of(#[trigger] records[k]) == name) <==> exists|k: int|
            0 <= k < wanted_records(records, kind).len() && (#[trigger] wanted_records(
                records,
                kind,
            )[k]).0 == name,
        items_under(wanted_records(records, kind), name).len() > 0 ==> (kind is None || kind
            == Some(name)) && exists|k: int|
            0 <= k < records.len() && kind_of(#[trigger] records[k]) == name,
    decreases records.len(),
{
    if records.len() > 0 {
        let front = records.drop_last();
        let n = records.len() - 1;
        let before = wanted_records(front, kind);
        let all = wanted_records(records, kind);
        let here = kind_of(records.last());
        lemma_wanted_kinds(front, kind, name);
        assert(records[n] == records.last());
        if exists|k: int| 0 <= k < front.len() && kind_of(#[trigger] front[k]) == name {
            let k = choose|k: int| 0 <= k < front.len() && kind_of(#[trigger] front[k]) == name;
            assert(records[k] == front[k]);
        }
        if exists|k: int| 0 <= k < before.len() && (#[trigger] before[k]).0 == name {
            let k = choose|k: int| 0 <= k < before.len() && (#[trigger] before[k]).0 == name;
            assert(all[k] == before[k]);
        }
        if !(kind is Some && kind->0 != here) {
            assert(all == before.push((here, n as usize)));
            assert(all[before.len() as int].0 == here);
            assert(all.drop_last() =~= before);
        }
        if exists|k: int| 0 <= k < all.len() && (#[trigger] all[k]).0 == name {
            let k = choose|k: int| 0 <= k < all.len() && (#[trigger] all[k]).0 == name;
            if k < before.len() {
                assert(before[k] == all[k]);
            }
        }
        if exists|k: int| 0 <= k < records.len() && kind_of(#[trigger] records[k]) == name {
            let k = choose|k: int|
                0 <= k < records.len() && kind_of(#[trigger] records[k]) == name;
            if k < n {
                assert(front[k] == records[k]);
            }
        }
    }
}

/// Every field that a sample has is described by all the values that samples have
/// under it, in order, and nothing else is described.
pub proof fn law_a_field_is_described_by_its_values(
    fields: Seq<FieldStats>,
    samples: Seq<(Seq<char>, u64)>,
    name: Seq<char>,
)
    requires
        describe_fields(fields, samples),
    ensures
        (exists|i: int| 0 <= i < fields.len() && (#[trigger] fields[i]).field@ == name)
            <==> exists|k: int| 0 <= k < samples.len() && (#[trigger] samples[k]).0 == name,
        forall|i: int|
            0 <= i < fields.len() && (#[trigger] fields[i]).field@ == name ==> describes(
                fields[i],
                samples.filter(|s: (Seq<char>, u64)| s.0 == name).map_values(
                    |s: (Seq<char>, u64)| s.1,
                ),
            ),
        forall|i: int, j: int|
            0 <= i < fields.len() && 0 <= j < fields.len() && (#[trigger] fields[i]).field@ == (
            #[trigger] fields[j]).field@ ==> i == j,
{
    crate::table::law_items_come_under_their_name(samples, name);
    if exists|i: int| 0 <= i < fields.len() && (#[trigger] fields[i]).field@ == name {
        let i = choose|i: int| 0 <= i < fields.len() && (#[trigger] fields[i]).field@ == name;
        assert(items_under(samples, fields[i].field@).len() > 0);
    }
    if exists|k: int| 0 <= k < samples.len() && (#[trigger] samples[k]).0 == name {
        let k = choose|k: int| 0 <= k < samples.len() && (#[trigger] samples[k]).0 == name;
        assert(has_field(fields, samples[k].0));
    }
    assert forall|i: int, j: int|
        0 <= i < fields.len() && 0 <= j < fields.len() && (#[trigger] fields[i]).field@ == (
        #[trigger] fields[j]).field@ implies i == j by {
        crate::text::lemma_text_before_is_total(fields[i].field@, fields[i].field@);
        if i < j {
            assert(text_before(fields[i].field@, fields[j].field@));
        } else if j < i {
            assert(text_before(fields[j].field@, fields[i].field@));
        }
    }
}

/// The records of a file are its lines that are JSON, in order; the others are
/// skipped.
pub proof fn law_lines_that_are_not_json_are_skipped(lines: Seq<Seq<char>>)
    ensures
        parsed_lines(lines) == lines.filter(|line: Seq<char>| json_text(line) is Some).map_values(
            |line: Seq<char>| json_text(line)->0,
        ),
    decreases lines.len(),
{
    reveal(Seq::filter);
    let is_json = |line: Seq<char>| json_text(line) is Some;
    let value = |line: Seq<char>| json_text(line)->0;
    if lines.len() > 0 {
        let front = lines.drop_last();
        law_lines_that_are_not_json_are_skipped(front);
        if is_json(lines.last()) {
            assert(lines.filter(is_json) == front.filter(is_json).push(lines.last()));
            assert(lines.filter(is_json).map_values(value) =~= front.filter(is_json).map_values(
                value,
            ).push(value(lines.last())));
        }
    } else {
        assert(parsed_lines(lines) =~= lines.filter(is_json).map_values(value));
    }
}

/// A record has the time as the clock gives it in milliseconds, as far as it has
/// room, and zero where the clock stands before the epoch.
pub proof fn law_a_record_has_the_time_of_the_clock(ms: u128)
    ensures
        ms <= u64::MAX ==> millis_of(Some(ms)) == ms,
        millis_of(None) == 0,
{
}

/// The records of a repository lie under its git directory.
pub proof fn law_records_lie_under_the_git_directory(git_dir: Seq<u8>)
    requires
        git_dir.len() > 0,
        git_dir.last() != 47,
    ensures
        metrics_path_of(git_dir) == git_dir + encode_utf8("/git-full-send/metrics.jsonl"@),
{
    reveal_strlit("git-full-send");
    reveal_strlit("metrics.jsonl");
    reveal_strlit("/git-full-send/metrics.jsonl");
    vstd::utf8::is_ascii_chars_encode_utf8("git-full-send"@);
    vstd::utf8::is_ascii_chars_encode_utf8("metrics.jsonl"@);
    vstd::utf8::is_ascii_chars_encode_utf8("/git-full-send/metrics.jsonl"@);
    let dir = joined(git_dir, encode_utf8("git-full-send"@));
    assert(dir.last() != 47);
    assert(metrics_path_of(git_dir) =~= git_dir + encode_utf8("/git-full-send/metrics.jsonl"@));
}

/// The kinds come in the order of their names, each once.
pub proof fn law_kinds_come_in_the_order_of_their_names(
    kinds: Seq<KindStats>,
    records: Seq<JsonView>,
    kind: Option<Seq<char>>,
    last: Option<usize>,
    i: int,
)
    requires
        describe_kinds(kinds, records, kind, last),
        0 <= i,
        i + 1 < kinds.len(),
    ensures
        text_before(kinds[i].kind@, kinds[i + 1].kind@),
        kinds[i].kind@ != kinds[i + 1].kind@,
{
    crate::text::lemma_text_before_is_total(kinds[i].kind@, kinds[i + 1].kind@);
}

} // verus!
