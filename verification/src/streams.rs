//! The streams that a repository holds: listing them, forgetting one, and
//! reaping those that were not synced for long.

use vstd::prelude::*;
use vstd::slice::slice_subrange;

use crate::protocol::{
    code_ref_of, extra_ref_of, is_stream_id, law_a_stream_prefix_covers_its_refs, stream_prefix,
    stream_prefix_of, StreamId, STREAMS_PREFIX,
};
use crate::text::{chars_of, copy_texts, ends_with, push_text, starts_with, string_of, texts};

verus! {

/// The stream whose `code` ref has this name.
pub open spec fn stream_of(name: Seq<char>) -> Option<Seq<char>> {
    let rest = name.skip(STREAMS_PREFIX@.len() as int);
    let id = rest.take(rest.len() - "/code"@.len());
    if STREAMS_PREFIX@.is_prefix_of(name) && "/code"@.is_suffix_of(rest) && is_stream_id(id) {
        Some(id)
    } else {
        None
    }
}

/// The stream whose `code` ref has this name. Other refs name no stream.
pub fn stream_id_from_code_ref(name: &str) -> (r: Option<StreamId>)
    ensures
        match r {
            Some(stream) => stream_of(name@) == Some(stream@),
            None => stream_of(name@) is None,
        },
{
    let chars = chars_of(name);
    let head = chars_of(STREAMS_PREFIX);
    let tail = chars_of("/code");
    if !starts_with(chars.as_slice(), head.as_slice()) {
        return None;
    }
    let rest = slice_subrange(chars.as_slice(), head.len(), chars.len());
    proof {
        assert(rest@ =~= name@.skip(STREAMS_PREFIX@.len() as int));
    }
    if !ends_with(rest, tail.as_slice()) {
        return None;
    }
    let id = slice_subrange(rest, 0, rest.len() - tail.len());
    proof {
        assert(id@ =~= rest@.take(rest@.len() - "/code"@.len()));
    }
    let text = string_of(id);
    match StreamId::new(text.as_str()) {
        Ok(stream) => Some(stream),
        Err(_) => None,
    }
}

/// The ids of a list of streams.
pub open spec fn ids(v: Seq<StreamId>) -> Seq<Seq<char>> {
    Seq::new(v.len(), |i: int| v[i]@)
}

/// The streams that have a `code` ref among these.
pub open spec fn streams_in(names: Seq<Seq<char>>) -> Seq<Seq<char>>
    decreases names.len(),
{
    if names.len() == 0 {
        Seq::empty()
    } else {
        match stream_of(names.last()) {
            Some(id) => streams_in(names.drop_last()).push(id),
            None => streams_in(names.drop_last()),
        }
    }
}

/// The streams that have a `code` ref among those of the repository, in order.
pub fn list_streams(names: &Vec<String>) -> (r: Vec<StreamId>)
    ensures
        ids(r@) == streams_in(texts(names@)),
{
    let ghost all = texts(names@);
    let mut out: Vec<StreamId> = Vec::new();
    let mut i: usize = 0;
    proof {
        assert(all.take(0) =~= Seq::<Seq<char>>::empty());
        assert(ids(out@) =~= Seq::<Seq<char>>::empty());
    }
    while i < names.len()
        invariant
            i <= names@.len(),
            all == texts(names@),
            ids(out@) == streams_in(all.take(i as int)),
        decreases names@.len() - i,
    {
        proof {
            let next = all.take(i + 1);
            assert(next.drop_last() =~= all.take(i as int));
            assert(next.last() == names@[i as int]@);
        }
        match stream_id_from_code_ref(names[i].as_str()) {
            Some(stream) => {
                let ghost before = out@;
                out.push(stream);
                proof {
                    assert(ids(out@) =~= ids(before).push(stream@));
                }
            },
            None => {},
        }
        i += 1;
    }
    proof {
        assert(all.take(all.len() as int) =~= all);
    }
    out
}

/// The refs of a stream among these.
pub open spec fn refs_of(names: Seq<Seq<char>>, id: Seq<char>) -> Seq<Seq<char>>
    decreases names.len(),
{
    if names.len() == 0 {
        Seq::empty()
    } else if stream_prefix_of(id).is_prefix_of(names.last()) {
        refs_of(names.drop_last(), id).push(names.last())
    } else {
        refs_of(names.drop_last(), id)
    }
}

/// What is left of these refs where a stream is forgotten.
pub open spec fn without_stream(names: Seq<Seq<char>>, id: Seq<char>) -> Seq<Seq<char>>
    decreases names.len(),
{
    if names.len() == 0 {
        Seq::empty()
    } else if stream_prefix_of(id).is_prefix_of(names.last()) {
        without_stream(names.drop_last(), id)
    } else {
        without_stream(names.drop_last(), id).push(names.last())
    }
}

/// What forgetting a stream does: the refs to delete, and those to keep.
#[derive(Debug)]
pub struct Forgotten {
    /// The refs of the stream.
    pub deleted: Vec<String>,
    /// The other refs.
    pub kept: Vec<String>,
}

/// Parts the refs of the repository into those of a stream, which are deleted
/// where it is forgotten, and the others. A stream without refs deletes none.
pub fn forget_stream(names: &Vec<String>, stream: &StreamId) -> (r: Forgotten)
    ensures
        texts(r.deleted@) == refs_of(texts(names@), stream@),
        texts(r.kept@) == without_stream(texts(names@), stream@),
{
    let prefix = stream_prefix(stream);
    let head = chars_of(prefix.as_str());
    let ghost all = texts(names@);
    let mut deleted: Vec<String> = Vec::new();
    let mut kept: Vec<String> = Vec::new();
    let mut i: usize = 0;
    proof {
        assert(all.take(0) =~= Seq::<Seq<char>>::empty());
        assert(texts(deleted@) =~= Seq::<Seq<char>>::empty());
        assert(texts(kept@) =~= Seq::<Seq<char>>::empty());
    }
    while i < names.len()
        invariant
            i <= names@.len(),
            all == texts(names@),
            head@ == stream_prefix_of(stream@),
            texts(deleted@) == refs_of(all.take(i as int), stream@),
            texts(kept@) == without_stream(all.take(i as int), stream@),
        decreases names@.len() - i,
    {
        let name = chars_of(names[i].as_str());
        proof {
            let next = all.take(i + 1);
            assert(next.drop_last() =~= all.take(i as int));
            assert(next.last() == names@[i as int]@);
        }
        if starts_with(name.as_slice(), head.as_slice()) {
            push_text(&mut deleted, names[i].as_str());
        } else {
            push_text(&mut kept, names[i].as_str());
        }
        i += 1;
    }
    proof {
        assert(all.take(all.len() as int) =~= all);
    }
    Forgotten { deleted, kept }
}

/// A ref, and when the commit that it names was committed, in seconds of the
/// Unix epoch.
#[derive(Debug)]
pub struct StreamTip {
    /// The name of the ref.
    pub name: String,
    /// The time.
    pub committed_unix_secs: i64,
}

/// The names and times of tips.
pub open spec fn tip_views(v: Seq<StreamTip>) -> Seq<(Seq<char>, i64)> {
    Seq::new(v.len(), |i: int| (v[i].name@, v[i].committed_unix_secs))
}

/// How many of the tips are `code` refs of streams.
pub open spec fn scanned_in(tips: Seq<(Seq<char>, i64)>) -> nat
    decreases tips.len(),
{
    if tips.len() == 0 {
        0
    } else {
        scanned_in(tips.drop_last()) + if stream_of(tips.last().0) is Some {
            1nat
        } else {
            0nat
        }
    }
}

/// The streams whose `code` ref was committed before `cutoff`, with the times.
pub open spec fn stale_in(tips: Seq<(Seq<char>, i64)>, cutoff: int) -> Seq<(Seq<char>, i64)>
    decreases tips.len(),
{
    if tips.len() == 0 {
        Seq::empty()
    } else {
        let front = stale_in(tips.drop_last(), cutoff);
        match stream_of(tips.last().0) {
            Some(id) => if tips.last().1 < cutoff {
                front.push((id, tips.last().1))
            } else {
                front
            },
            None => front,
        }
    }
}

/// A stream that was reaped.
#[derive(Debug)]
pub struct ReapedStream {
    /// The stream.
    pub stream: StreamId,
    /// When its `code` ref was committed.
    pub committed_unix_secs: i64,
    /// How many refs were removed, or would be.
    pub refs_removed: usize,
}

/// What a pass over the streams found.
#[derive(Debug)]
pub struct ReapOutcome {
    /// How many streams there are.
    pub scanned: usize,
    /// The stale ones.
    pub reaped: Vec<ReapedStream>,
    /// Whether nothing was deleted.
    pub dry_run: bool,
}

/// The streams, times and counts of what was reaped.
pub open spec fn reaped_views(v: Seq<ReapedStream>) -> Seq<(Seq<char>, i64, nat)> {
    Seq::new(
        v.len(),
        |i: int| (v[i].stream@, v[i].committed_unix_secs, v[i].refs_removed as nat),
    )
}

/// What is left of the refs where stale streams are forgotten one after the
/// other.
pub open spec fn after_reap(names: Seq<Seq<char>>, stale: Seq<(Seq<char>, i64)>) -> Seq<Seq<char>>
    decreases stale.len(),
{
    if stale.len() == 0 {
        names
    } else {
        without_stream(after_reap(names, stale.drop_last()), stale.last().0)
    }
}

/// The refs that are left before the stale stream at `i` is forgotten; a dry run
/// forgets none.
pub open spec fn refs_before(
    names: Seq<Seq<char>>,
    stale: Seq<(Seq<char>, i64)>,
    i: int,
    dry_run: bool,
) -> Seq<Seq<char>> {
    if dry_run {
        names
    } else {
        after_reap(names, stale.take(i))
    }
}

/// What reaping does: the outcome, and the refs to delete for each stream that
/// was reaped.
#[derive(Debug)]
pub struct Reap {
    /// The outcome.
    pub outcome: ReapOutcome,
    /// The refs to delete, stream by stream.
    pub deletions: Vec<Vec<String>>,
    /// The refs that are left.
    pub kept: Vec<String>,
}

/// Finds the streams whose `code` ref was committed before the cutoff, and
/// forgets each; a dry run only counts what it would delete.
///
/// `names` are the refs of the repository, and `tips` those of them that are
/// `code` refs of streams.
pub fn reap_streams(
    names: &Vec<String>,
    tips: &Vec<StreamTip>,
    cutoff_unix_secs: i64,
    dry_run: bool,
) -> (r: Reap)
    ensures
        r.outcome.scanned == scanned_in(tip_views(tips@)),
        r.outcome.dry_run == dry_run,
        ({
            let stale = stale_in(tip_views(tips@), cutoff_unix_secs as int);
            &&& r.outcome.reaped@.len() == stale.len()
            &&& forall|i: int|
                0 <= i < stale.len() ==> (#[trigger] reaped_views(r.outcome.reaped@)[i]) == (
                    stale[i].0,
                    stale[i].1,
                    refs_of(
                        refs_before(texts(names@), stale, i, dry_run),
                        stale[i].0,
                    ).len(),
                )
            &&& r.deletions@.len() == if dry_run {
                0
            } else {
                stale.len()
            }
            &&& forall|i: int|
                0 <= i < r.deletions@.len() ==> texts((#[trigger] r.deletions@[i])@) == refs_of(
                    refs_before(texts(names@), stale, i, dry_run),
                    stale[i].0,
                )
            &&& texts(r.kept@) == if dry_run {
                texts(names@)
            } else {
                after_reap(texts(names@), stale)
            }
        }),
{
    let ghost views = tip_views(tips@);
    let ghost cutoff = cutoff_unix_secs as int;
    let mut scanned: usize = 0;
    let mut stale: Vec<(StreamId, i64)> = Vec::new();
    let mut i: usize = 0;
    proof {
        assert(views.take(0) =~= Seq::<(Seq<char>, i64)>::empty());
        assert(stale_views(stale@) =~= Seq::<(Seq<char>, i64)>::empty());
    }
    while i < tips.len()
        invariant
            i <= tips@.len(),
            views == tip_views(tips@),
            cutoff == cutoff_unix_secs,
            scanned <= i,
            scanned == scanned_in(views.take(i as int)),
            stale_views(stale@) == stale_in(views.take(i as int), cutoff),
        decreases tips@.len() - i,
    {
        let tip = &tips[i];
        proof {
            let next = views.take(i + 1);
            assert(next.drop_last() =~= views.take(i as int));
            assert(next.last() == (tip.name@, tip.committed_unix_secs));
        }
        match stream_id_from_code_ref(tip.name.as_str()) {
            Some(stream) => {
                scanned += 1;
                if tip.committed_unix_secs < cutoff_unix_secs {
                    let ghost before = stale@;
                    stale.push((stream, tip.committed_unix_secs));
                    proof {
                        assert(stale_views(stale@) =~= stale_views(before).push(
                            (stream@, tip.committed_unix_secs),
                        ));
                    }
                }
            },
            None => {},
        }
        i += 1;
    }
    let ghost found = stale_views(stale@);
    proof {
        assert(views.take(views.len() as int) =~= views);
        assert(found.take(0) =~= Seq::<(Seq<char>, i64)>::empty());
    }
    let mut reaped: Vec<ReapedStream> = Vec::new();
    let mut deletions: Vec<Vec<String>> = Vec::new();
    let mut kept = copy_texts(names);
    let mut k: usize = 0;
    while k < stale.len()
        invariant
            k <= stale@.len(),
            found == stale_views(stale@),
            reaped@.len() == k,
            deletions@.len() == if dry_run {
                0
            } else {
                k as int
            },
            texts(kept@) == refs_before(texts(names@), found, k as int, dry_run),
            forall|j: int|
                0 <= j < k ==> (#[trigger] reaped_views(reaped@)[j]) == (
                    found[j].0,
                    found[j].1,
                    refs_of(refs_before(texts(names@), found, j, dry_run), found[j].0).len(),
                ),
            forall|j: int|
                0 <= j < deletions@.len() ==> texts((#[trigger] deletions@[j])@) == refs_of(
                    refs_before(texts(names@), found, j, dry_run),
                    found[j].0,
                ),
        decreases stale@.len() - k,
    {
        let stream = stale[k].0.clone();
        let committed_unix_secs: i64 = stale[k].1;
        let forgotten = forget_stream(&kept, &stream);
        proof {
            assert(found[k as int] == (stream@, committed_unix_secs));
            assert(texts(forgotten.deleted@).len() == forgotten.deleted@.len());
            let next = found.take(k + 1);
            assert(next.drop_last() =~= found.take(k as int));
            assert(next.last() == found[k as int]);
        }
        let refs_removed: usize = forgotten.deleted.len();
        let ghost before = reaped@;
        reaped.push(ReapedStream { stream, committed_unix_secs, refs_removed });
        proof {
            assert forall|j: int| 0 <= j < k + 1 implies (#[trigger] reaped_views(reaped@)[j]) == (
                found[j].0,
                found[j].1,
                refs_of(refs_before(texts(names@), found, j, dry_run), found[j].0).len(),
            ) by {
                if j < k {
                    assert(reaped_views(before)[j] == reaped_views(reaped@)[j]);
                }
            }
        }
        if !dry_run {
            let Forgotten { deleted, kept: left } = forgotten;
            deletions.push(deleted);
            kept = left;
        }
        k += 1;
    }
    proof {
        assert(found.take(found.len() as int) =~= found);
    }
    Reap { outcome: ReapOutcome { scanned, reaped, dry_run }, deletions, kept }
}

/// The ids and times of stale streams.
spec fn stale_views(v: Seq<(StreamId, i64)>) -> Seq<(Seq<char>, i64)> {
    Seq::new(v.len(), |i: int| (v[i].0@, v[i].1))
}

/// A stream's `code` ref names that stream, and only its `code` ref does.
pub proof fn law_a_code_ref_names_its_stream(id: Seq<char>, name: Seq<char>)
    requires
        is_stream_id(id),
    ensures
        stream_of(name) == Some(id) <==> name == code_ref_of(id),
{
    let p = STREAMS_PREFIX@.len() as int;
    let q = "/code"@.len() as int;
    let own = code_ref_of(id);
    assert(own.subrange(0, p) =~= STREAMS_PREFIX@);
    assert(own.skip(p) =~= id + "/code"@);
    let rest = own.skip(p);
    assert(rest.subrange(rest.len() - q, rest.len() as int) =~= "/code"@);
    assert(rest.take(rest.len() - q) =~= id);
    if stream_of(name) == Some(id) {
        let behind = name.skip(p);
        assert(name =~= name.subrange(0, p) + behind);
        assert(behind =~= behind.take(behind.len() - q) + behind.subrange(
            behind.len() - q,
            behind.len() as int,
        ));
        assert(name =~= code_ref_of(id));
    }
}

/// A stream's `extra` ref names no stream.
pub proof fn law_an_extra_ref_names_no_stream(id: Seq<char>)
    ensures
        stream_of(extra_ref_of(id)) is None,
{
    reveal_strlit("/code");
    reveal_strlit("/extra");
    let p = STREAMS_PREFIX@.len() as int;
    let rest = extra_ref_of(id).skip(p);
    assert(rest =~= id + "/extra"@);
    if "/code"@.is_suffix_of(rest) {
        let end = rest.subrange(rest.len() - 5, rest.len() as int);
        assert(end[4] == 'e');
        assert(end[4] == rest[rest.len() - 1]);
    }
}

proof fn lemma_without_stream(names: Seq<Seq<char>>, id: Seq<char>, i: int)
    requires
        0 <= i < without_stream(names, id).len(),
    ensures
        !stream_prefix_of(id).is_prefix_of(without_stream(names, id)[i]),
        names.contains(without_stream(names, id)[i]),
    decreases names.len(),
{
    let front = names.drop_last();
    if i < without_stream(front, id).len() {
        lemma_without_stream(front, id, i);
        let name = without_stream(front, id)[i];
        let k = choose|k: int| 0 <= k < front.len() && front[k] == name;
        assert(names[k] == name);
    } else {
        assert(names[names.len() - 1] == names.last());
    }
}

proof fn lemma_kept(names: Seq<Seq<char>>, id: Seq<char>, name: Seq<char>)
    requires
        names.contains(name),
        !stream_prefix_of(id).is_prefix_of(name),
    ensures
        without_stream(names, id).contains(name),
    decreases names.len(),
{
    let k = choose|k: int| 0 <= k < names.len() && names[k] == name;
    let front = names.drop_last();
    let rest = without_stream(names, id);
    if k < front.len() {
        assert(front[k] == name);
        lemma_kept(front, id, name);
        let j = choose|j: int| 0 <= j < without_stream(front, id).len() && without_stream(
            front,
            id,
        )[j] == name;
        assert(rest[j] == name);
    } else {
        assert(rest[rest.len() - 1] == name);
    }
}

/// Forgetting a stream deletes the refs under its prefix and no others.
pub proof fn law_forgetting_keeps_other_refs(
    names: Seq<Seq<char>>,
    id: Seq<char>,
    name: Seq<char>,
)
    ensures
        without_stream(names, id).contains(name) <==> names.contains(name)
            && !stream_prefix_of(id).is_prefix_of(name),
{
    let rest = without_stream(names, id);
    if rest.contains(name) {
        let i = choose|i: int| 0 <= i < rest.len() && rest[i] == name;
        lemma_without_stream(names, id, i);
    }
    if names.contains(name) && !stream_prefix_of(id).is_prefix_of(name) {
        lemma_kept(names, id, name);
    }
}

proof fn lemma_nothing_to_forget(names: Seq<Seq<char>>, id: Seq<char>)
    requires
        forall|i: int|
            0 <= i < names.len() ==> !stream_prefix_of(id).is_prefix_of(#[trigger] names[i]),
    ensures
        refs_of(names, id).len() == 0,
        without_stream(names, id) == names,
    decreases names.len(),
{
    if names.len() > 0 {
        let front = names.drop_last();
        assert forall|i: int| 0 <= i < front.len() implies !stream_prefix_of(id).is_prefix_of(
            #[trigger] front[i],
        ) by {
            assert(front[i] == names[i]);
        }
        lemma_nothing_to_forget(front, id);
        assert(names[names.len() - 1] == names.last());
        assert(without_stream(names, id) =~= names);
    }
}

/// Forgetting a stream twice is forgetting it once: the second time there is
/// nothing to delete.
pub proof fn law_forgetting_is_idempotent(names: Seq<Seq<char>>, id: Seq<char>)
    ensures
        refs_of(without_stream(names, id), id).len() == 0,
        without_stream(without_stream(names, id), id) == without_stream(names, id),
{
    let rest = without_stream(names, id);
    assert forall|i: int| 0 <= i < rest.len() implies !stream_prefix_of(id).is_prefix_of(
        #[trigger] rest[i],
    ) by {
        lemma_without_stream(names, id, i);
    }
    lemma_nothing_to_forget(rest, id);
}

proof fn lemma_listed(names: Seq<Seq<char>>, id: Seq<char>) -> (i: int)
    requires
        streams_in(names).contains(id),
    ensures
        0 <= i < names.len(),
        stream_of(names[i]) == Some(id),
    decreases names.len(),
{
    let front = names.drop_last();
    if names.len() > 0 && stream_of(names.last()) == Some(id) {
        names.len() - 1
    } else {
        let k = choose|k: int| 0 <= k < streams_in(names).len() && streams_in(names)[k] == id;
        assert(streams_in(front)[k] == id);
        lemma_listed(front, id)
    }
}

/// A forgotten stream is not listed any more.
pub proof fn law_a_forgotten_stream_is_not_listed(names: Seq<Seq<char>>, id: Seq<char>)
    requires
        is_stream_id(id),
    ensures
        !streams_in(without_stream(names, id)).contains(id),
{
    let rest = without_stream(names, id);
    if streams_in(rest).contains(id) {
        let i = lemma_listed(rest, id);
        law_a_code_ref_names_its_stream(id, rest[i]);
        law_a_stream_prefix_covers_its_refs(id);
        lemma_without_stream(names, id, i);
    }
}

/// Only a stream whose `code` ref is strictly older than the cutoff is reaped.
pub proof fn law_only_stale_streams_are_reaped(tips: Seq<(Seq<char>, i64)>, cutoff: int, i: int)
    requires
        0 <= i < stale_in(tips, cutoff).len(),
    ensures
        stale_in(tips, cutoff)[i].1 < cutoff,
        exists|k: int|
            0 <= k < tips.len() && stream_of((#[trigger] tips[k]).0) == Some(
                stale_in(tips, cutoff)[i].0,
            ) && tips[k].1 == stale_in(tips, cutoff)[i].1,
    decreases tips.len(),
{
    let front = tips.drop_last();
    if i < stale_in(front, cutoff).len() {
        law_only_stale_streams_are_reaped(front, cutoff, i);
        let k = choose|k: int|
            0 <= k < front.len() && stream_of((#[trigger] front[k]).0) == Some(
                stale_in(front, cutoff)[i].0,
            ) && front[k].1 == stale_in(front, cutoff)[i].1;
        assert(tips[k] == front[k]);
    } else {
        assert(tips[tips.len() - 1] == tips.last());
    }
}

/// Every stream whose `code` ref is strictly older than the cutoff is reaped.
pub proof fn law_every_stale_stream_is_reaped(tips: Seq<(Seq<char>, i64)>, cutoff: int, k: int)
    requires
        0 <= k < tips.len(),
        stream_of(tips[k].0) is Some,
        tips[k].1 < cutoff,
    ensures
        stale_in(tips, cutoff).contains((stream_of(tips[k].0)->0, tips[k].1)),
    decreases tips.len(),
{
    let front = tips.drop_last();
    let all = stale_in(tips, cutoff);
    let found = (stream_of(tips[k].0)->0, tips[k].1);
    if k < front.len() {
        assert(front[k] == tips[k]);
        law_every_stale_stream_is_reaped(front, cutoff, k);
        let j = choose|j: int| 0 <= j < stale_in(front, cutoff).len() && stale_in(front, cutoff)[j]
            == found;
        assert(all[j] == found);
    } else {
        assert(all[all.len() - 1] == found);
    }
}

/// Only a `code` ref names a stream: what it is named after is a stream id, and
/// the ref is that stream's.
pub proof fn law_only_code_refs_name_streams(name: Seq<char>)
    ensures
        stream_of(name) matches Some(id) ==> is_stream_id(id) && name
            == "refs/git-full-send/streams/"@ + id + "/code"@,
{
    if let Some(id) = stream_of(name) {
        law_a_code_ref_names_its_stream(id, name);
    }
}

/// The streams of a repository are those that its `code` refs name, ref by ref
/// and in order.
pub proof fn law_each_code_ref_is_listed_once(
    names: Seq<Seq<char>>,
    more: Seq<Seq<char>>,
    id: Seq<char>,
)
    requires
        is_stream_id(id),
    ensures
        streams_in(names + more) == streams_in(names) + streams_in(more),
        streams_in(seq![code_ref_of(id)]) == seq![id],
        names.len() == 1 && (forall|other: Seq<char>|
            is_stream_id(other) ==> names[0] != #[trigger] code_ref_of(other)) ==> streams_in(
            names,
        ).len() == 0,
    decreases more.len(),
{
    let one = seq![code_ref_of(id)];
    law_a_code_ref_names_its_stream(id, code_ref_of(id));
    assert(one.drop_last() =~= Seq::<Seq<char>>::empty());
    assert(streams_in(one.drop_last()) =~= Seq::<Seq<char>>::empty());
    assert(one.last() == code_ref_of(id));
    assert(streams_in(one) =~= seq![id]);
    if names.len() == 1 {
        assert(names.drop_last() =~= Seq::<Seq<char>>::empty());
        assert(streams_in(names.drop_last()).len() == 0);
        law_only_code_refs_name_streams(names[0]);
    }
    if more.len() == 0 {
        assert(names + more =~= names);
        assert(streams_in(names) + streams_in(more) =~= streams_in(names));
    } else {
        law_each_code_ref_is_listed_once(names, more.drop_last(), id);
        assert((names + more).drop_last() =~= names + more.drop_last());
        assert(streams_in(names + more) =~= streams_in(names) + streams_in(more));
    }
}

/// Forgetting a stream parts the refs in two, each in the order in which they
/// were: those that start with the stream's prefix are deleted, and the others
/// kept.
pub proof fn law_forgetting_parts_the_refs(names: Seq<Seq<char>>, id: Seq<char>)
    ensures
        refs_of(names, id) == names.filter(
            |n: Seq<char>| ("refs/git-full-send/streams/"@ + id + "/"@).is_prefix_of(n),
        ),
        without_stream(names, id) == names.filter(
            |n: Seq<char>| !("refs/git-full-send/streams/"@ + id + "/"@).is_prefix_of(n),
        ),
        refs_of(names, id).len() + without_stream(names, id).len() == names.len(),
    decreases names.len(),
{
    reveal(Seq::filter);
    if names.len() > 0 {
        law_forgetting_parts_the_refs(names.drop_last(), id);
    }
}

/// Every `code` ref of a stream is looked at, and the stale streams come in the
/// order of their refs.
pub proof fn law_stale_streams_come_in_order(
    tips: Seq<(Seq<char>, i64)>,
    more: Seq<(Seq<char>, i64)>,
    cutoff: int,
)
    ensures
        scanned_in(tips) == tips.filter(|t: (Seq<char>, i64)| stream_of(t.0) is Some).len(),
        stale_in(tips + more, cutoff) == stale_in(tips, cutoff) + stale_in(more, cutoff),
        stale_in(tips, cutoff).len() == tips.filter(
            |t: (Seq<char>, i64)| stream_of(t.0) is Some && t.1 < cutoff,
        ).len(),
    decreases tips.len(), more.len(),
{
    reveal(Seq::filter);
    if tips.len() > 0 {
        law_stale_streams_come_in_order(tips.drop_last(), Seq::empty(), cutoff);
    }
    if more.len() == 0 {
        assert(tips + more =~= tips);
        assert(stale_in(tips, cutoff) + stale_in(more, cutoff) =~= stale_in(tips, cutoff));
    } else {
        law_stale_streams_come_in_order(tips, more.drop_last(), cutoff);
        assert((tips + more).drop_last() =~= tips + more.drop_last());
        assert(stale_in(tips + more, cutoff) =~= stale_in(tips, cutoff) + stale_in(more, cutoff));
    }
}

/// Reaping deletes the refs of every stale stream and of no other; a dry run
/// deletes none.
pub proof fn law_reaping_forgets_the_stale_streams(
    names: Seq<Seq<char>>,
    stale: Seq<(Seq<char>, i64)>,
    name: Seq<char>,
    i: int,
)
    ensures
        after_reap(names, stale).contains(name) <==> names.contains(name) && forall|k: int|
            0 <= k < stale.len() ==> !stream_prefix_of((#[trigger] stale[k]).0).is_prefix_of(name),
        refs_before(names, stale, i, true) == names,
        0 <= i <= stale.len() ==> refs_before(names, stale, i, false) == after_reap(
            names,
            stale.take(i),
        ),
    decreases stale.len(),
{
    if stale.len() > 0 {
        let front = stale.drop_last();
        law_reaping_forgets_the_stale_streams(names, front, name, i);
        law_forgetting_keeps_other_refs(after_reap(names, front), stale.last().0, name);
        assert(stale[stale.len() - 1] == stale.last());
        assert forall|k: int| 0 <= k < front.len() implies #[trigger] front[k] == stale[k] by {}
        if forall|k: int|
            0 <= k < front.len() ==> !stream_prefix_of((#[trigger] front[k]).0).is_prefix_of(
                name,
            ) {
            assert forall|k: int|
                0 <= k < stale.len() && k != stale.len() - 1 implies !stream_prefix_of(
                (#[trigger] stale[k]).0,
            ).is_prefix_of(name) by {
                assert(front[k] == stale[k]);
            }
        }
        if forall|k: int|
            0 <= k < stale.len() ==> !stream_prefix_of((#[trigger] stale[k]).0).is_prefix_of(
                name,
            ) {
            assert forall|k: int| 0 <= k < front.len() implies !stream_prefix_of(
                (#[trigger] front[k]).0,
            ).is_prefix_of(name) by {
                assert(front[k] == stale[k]);
            }
        }
    }
}

} // verus!
