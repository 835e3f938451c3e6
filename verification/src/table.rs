//! Items grouped by a name, the names in order.

use vstd::prelude::*;

use crate::text::{
    is_text_before, lemma_text_before_is_total, lemma_text_before_is_transitive, same_text,
    text_before,
};

verus! {

/// A name, and the items under it.
#[derive(Debug)]
pub struct Row<T> {
    /// The name.
    pub name: String,
    /// The items, in the order in which they came.
    pub items: Vec<T>,
}

/// The items that come under `name`, in order.
pub open spec fn items_under<T>(pairs: Seq<(Seq<char>, T)>, name: Seq<char>) -> Seq<T>
    decreases pairs.len(),
{
    if pairs.len() == 0 {
        Seq::empty()
    } else if pairs.last().0 == name {
        items_under(pairs.drop_last(), name).push(pairs.last().1)
    } else {
        items_under(pairs.drop_last(), name)
    }
}

/// Whether `names` ascend.
pub open spec fn names_ascend<T>(rows: Seq<Row<T>>) -> bool {
    forall|i: int, j: int|
        0 <= i < j < rows.len() ==> text_before(
            (#[trigger] rows[i]).name@,
            (#[trigger] rows[j]).name@,
        )
}

/// Whether `name` is the name of a row.
pub open spec fn has_row<T>(rows: Seq<Row<T>>, name: Seq<char>) -> bool {
    exists|i: int| 0 <= i < rows.len() && (#[trigger] rows[i]).name@ == name
}

/// Whether `rows` group the items of `pairs`: one row for each name, in the
/// order of the names, with the items that come under it.
pub open spec fn is_grouped<T>(rows: Seq<Row<T>>, pairs: Seq<(Seq<char>, T)>) -> bool {
    &&& names_ascend(rows)
    &&& forall|i: int|
        0 <= i < rows.len() ==> (#[trigger] rows[i]).items@ == items_under(pairs, rows[i].name@)
            && rows[i].items@.len() > 0
    &&& forall|k: int| 0 <= k < pairs.len() ==> has_row(rows, (#[trigger] pairs[k]).0)
}

proof fn lemma_no_items<T>(pairs: Seq<(Seq<char>, T)>, name: Seq<char>)
    requires
        forall|k: int| 0 <= k < pairs.len() ==> (#[trigger] pairs[k]).0 != name,
    ensures
        items_under(pairs, name) == Seq::<T>::empty(),
    decreases pairs.len(),
{
    if pairs.len() > 0 {
        assert(pairs[pairs.len() - 1].0 != name);
        assert forall|k: int| 0 <= k < pairs.drop_last().len() implies (#[trigger] pairs.drop_last()[k]).0
            != name by {
            assert(pairs.drop_last()[k] == pairs[k]);
        }
        lemma_no_items(pairs.drop_last(), name);
    }
}

/// Rows without an item group no pairs.
pub proof fn lemma_nothing_is_grouped<T>()
    ensures
        is_grouped(Seq::<Row<T>>::empty(), Seq::<(Seq<char>, T)>::empty()),
{
}

/// Adds an item under `name` to rows that group `pairs`.
pub fn add_item<T>(
    rows: &mut Vec<Row<T>>,
    name: &str,
    item: T,
    Ghost(pairs): Ghost<Seq<(Seq<char>, T)>>,
)
    requires
        is_grouped(old(rows)@, pairs),
    ensures
        is_grouped(final(rows)@, pairs.push((name@, item))),
{
    let ghost was = rows@;
    let ghost all = pairs.push((name@, item));
    proof {
        assert(all.drop_last() =~= pairs);
    }
    let mut i: usize = rows.len();
    while i > 0 && is_text_before(name, rows[i - 1].name.as_str())
        invariant
            i <= rows@.len(),
            rows@ == was,
            forall|k: int| i <= k < was.len() ==> text_before(name@, (#[trigger] was[k]).name@),
        decreases i,
    {
        i -= 1;
    }
    if i > 0 && same_text(rows[i - 1].name.as_str(), name) {
        let at: usize = i - 1;
        let mut row = rows.remove(at);
        row.items.push(item);
        let ghost grown = row;
        rows.insert(at, row);
        proof {
            let now = rows@;
            assert(now =~= was.update(at as int, grown));
            assert forall|k: int, j: int| 0 <= k < j < now.len() implies text_before(
                (#[trigger] now[k]).name@,
                (#[trigger] now[j]).name@,
            ) by {
                assert(now[k].name@ == was[k].name@);
                assert(now[j].name@ == was[j].name@);
            }
            assert forall|k: int| 0 <= k < now.len() implies (#[trigger] now[k]).items@
                == items_under(all, now[k].name@) && now[k].items@.len() > 0 by {
                if k != at {
                    assert(now[k] == was[k]);
                    if k < at {
                        assert(text_before(was[k].name@, was[at as int].name@));
                    } else {
                        assert(text_before(was[at as int].name@, was[k].name@));
                    }
                    lemma_text_before_is_total(name@, was[k].name@);
                    assert(was[k].name@ != name@);
                } else {
                    assert(was[at as int].items@ == items_under(pairs, name@));
                }
            }
            assert forall|k: int| 0 <= k < all.len() implies has_row(now, (#[trigger] all[k]).0) by {
                if k < pairs.len() {
                    assert(all[k] == pairs[k]);
                    assert(has_row(was, pairs[k].0));
                    let r = choose|r: int|
                        0 <= r < was.len() && (#[trigger] was[r]).name@ == pairs[k].0;
                    assert(now[r].name@ == was[r].name@);
                } else {
                    assert(now[at as int].name@ == name@);
                }
            }
        }
    } else {
        proof {
            assert forall|k: int| 0 <= k < i implies text_before((#[trigger] was[k]).name@, name@) by {
                lemma_text_before_is_total(name@, was[i - 1].name@);
                if k < i - 1 {
                    lemma_text_before_is_transitive(was[k].name@, was[i - 1].name@, name@);
                }
            }
        }
        let mut items: Vec<T> = Vec::new();
        items.push(item);
        let row = Row { name: name.to_owned(), items };
        let ghost added = row;
        rows.insert(i, row);
        proof {
            let now = rows@;
            assert(now =~= was.insert(i as int, added));
            assert forall|k: int, j: int| 0 <= k < j < now.len() implies text_before(
                (#[trigger] now[k]).name@,
                (#[trigger] now[j]).name@,
            ) by {
                if j < i {
                    assert(now[k] == was[k] && now[j] == was[j]);
                } else if j == i {
                    assert(now[k] == was[k]);
                } else if k < i {
                    assert(now[k] == was[k] && now[j] == was[j - 1]);
                } else if k == i {
                    assert(now[j] == was[j - 1]);
                } else {
                    assert(now[k] == was[k - 1] && now[j] == was[j - 1]);
                }
            }
            assert forall|k: int| 0 <= k < pairs.len() implies (#[trigger] pairs[k]).0 != name@ by {
                assert(has_row(was, pairs[k].0));
                let r = choose|r: int| 0 <= r < was.len() && (#[trigger] was[r]).name@ == pairs[k].0;
                lemma_text_before_is_total(name@, was[r].name@);
            }
            lemma_no_items(pairs, name@);
            assert forall|k: int| 0 <= k < now.len() implies (#[trigger] now[k]).items@
                == items_under(all, now[k].name@) && now[k].items@.len() > 0 by {
                if k < i {
                    assert(now[k] == was[k]);
                    lemma_text_before_is_total(name@, was[k].name@);
                } else if k > i {
                    assert(now[k] == was[k - 1]);
                    lemma_text_before_is_total(name@, was[k - 1].name@);
                } else {
                    assert(now[k].items@ =~= seq![item]);
                    assert(Seq::<T>::empty().push(item) =~= seq![item]);
                }
            }
            assert forall|k: int| 0 <= k < all.len() implies has_row(now, (#[trigger] all[k]).0) by {
                if k < pairs.len() {
                    assert(all[k] == pairs[k]);
                    assert(has_row(was, pairs[k].0));
                    let r = choose|r: int|
                        0 <= r < was.len() && (#[trigger] was[r]).name@ == pairs[k].0;
                    if r < i {
                        assert(now[r] == was[r]);
                    } else {
                        assert(now[r + 1] == was[r]);
                    }
                } else {
                    assert(now[i as int].name@ == name@);
                }
            }
        }
    }
}

/// The items under a name are those that came with it, in order, and a name has items
/// exactly where some came with it.
pub proof fn law_items_come_under_their_name<T>(pairs: Seq<(Seq<char>, T)>, name: Seq<char>)
    ensures
        items_under(pairs, name) == pairs.filter(|p: (Seq<char>, T)| p.0 == name).map_values(
            |p: (Seq<char>, T)| p.1,
        ),
        items_under(pairs, name).len() > 0 <==> exists|k: int|
            0 <= k < pairs.len() && (#[trigger] pairs[k]).0 == name,
    decreases pairs.len(),
{
    reveal(Seq::filter);
    let of = |p: (Seq<char>, T)| p.0 == name;
    let item = |p: (Seq<char>, T)| p.1;
    if pairs.len() > 0 {
        let front = pairs.drop_last();
        let n = pairs.len() - 1;
        law_items_come_under_their_name(front, name);
        if of(pairs.last()) {
            assert(pairs.filter(of) == front.filter(of).push(pairs.last()));
            assert(pairs.filter(of).map_values(item) =~= front.filter(of).map_values(item).push(
                item(pairs.last()),
            ));
            assert(pairs[n].0 == name);
        }
        if exists|k: int| 0 <= k < front.len() && (#[trigger] front[k]).0 == name {
            let k = choose|k: int| 0 <= k < front.len() && (#[trigger] front[k]).0 == name;
            assert(pairs[k] == front[k]);
        }
        if exists|k: int| 0 <= k < pairs.len() && (#[trigger] pairs[k]).0 == name {
            let k = choose|k: int| 0 <= k < pairs.len() && (#[trigger] pairs[k]).0 == name;
            if k < n {
                assert(front[k] == pairs[k]);
            }
        }
    } else {
        assert(items_under(pairs, name) =~= pairs.filter(of).map_values(item));
    }
}

/// Rows that group pairs have a row for exactly the names that a pair has, in the
/// order of the names and each once.
pub proof fn law_every_name_has_one_row<T>(
    rows: Seq<Row<T>>,
    pairs: Seq<(Seq<char>, T)>,
    name: Seq<char>,
)
    requires
        is_grouped(rows, pairs),
    ensures
        (exists|i: int| 0 <= i < rows.len() && (#[trigger] rows[i]).name@ == name) <==> exists|
            k: int,
        |
            0 <= k < pairs.len() && (#[trigger] pairs[k]).0 == name,
        forall|i: int, j: int|
            0 <= i < rows.len() && 0 <= j < rows.len() && (#[trigger] rows[i]).name@ == (
            #[trigger] rows[j]).name@ ==> i == j,
{
    law_items_come_under_their_name(pairs, name);
    if exists|i: int| 0 <= i < rows.len() && (#[trigger] rows[i]).name@ == name {
        let i = choose|i: int| 0 <= i < rows.len() && (#[trigger] rows[i]).name@ == name;
        assert(rows[i].items@.len() > 0);
    }
    if exists|k: int| 0 <= k < pairs.len() && (#[trigger] pairs[k]).0 == name {
        let k = choose|k: int| 0 <= k < pairs.len() && (#[trigger] pairs[k]).0 == name;
        assert(has_row(rows, pairs[k].0));
    }
    assert forall|i: int, j: int|
        0 <= i < rows.len() && 0 <= j < rows.len() && (#[trigger] rows[i]).name@ == (
        #[trigger] rows[j]).name@ implies i == j by {
        lemma_text_before_is_total(rows[i].name@, rows[i].name@);
        if i < j {
            assert(text_before(rows[i].name@, rows[j].name@));
        } else if j < i {
            assert(text_before(rows[j].name@, rows[i].name@));
        }
    }
}

} // verus!
