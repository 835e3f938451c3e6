//! JSON values, as far as metrics and traces look at them.

use vstd::prelude::*;

use crate::text::same_text;

verus! {

/// A JSON value. A number that is not an integer, or is too large for one, is
/// known by the bit pattern of the double that stands for it.
#[derive(Debug)]
pub enum Json {
    /// `null`.
    Null,
    /// `true` or `false`.
    Bool(bool),
    /// A number: as an integer, if it is one, and as the bits of a double.
    Number {
        /// The integer.
        whole: Option<i64>,
        /// The bits of the double.
        bits: Option<u64>,
    },
    /// A string.
    Text(String),
    /// An array.
    Array(Vec<Json>),
    /// An object: its members, in the order of their names.
    Object(Vec<(String, Json)>),
}

/// The view of a [`Json`].
pub enum JsonView {
    Null,
    Bool(bool),
    Number { whole: Option<i64>, bits: Option<u64> },
    Text(Seq<char>),
    Array(Seq<JsonView>),
    Object(Seq<(Seq<char>, JsonView)>),
}

/// The view of a value.
pub open spec fn view_of(json: Json) -> JsonView
    decreases json,
{
    match json {
        Json::Null => JsonView::Null,
        Json::Bool(b) => JsonView::Bool(b),
        Json::Number { whole, bits } => JsonView::Number { whole, bits },
        Json::Text(s) => JsonView::Text(s@),
        Json::Array(items) => JsonView::Array(
            Seq::new(
                items@.len(),
                |i: int|
                    if 0 <= i < items@.len() {
                        view_of(items@[i])
                    } else {
                        JsonView::Null
                    },
            ),
        ),
        Json::Object(members) => JsonView::Object(
            Seq::new(
                members@.len(),
                |i: int|
                    if 0 <= i < members@.len() {
                        (members@[i].0@, view_of(members@[i].1))
                    } else {
                        (Seq::<char>::empty(), JsonView::Null)
                    },
            ),
        ),
    }
}

impl View for Json {
    type V = JsonView;

    open spec fn view(&self) -> JsonView {
        view_of(*self)
    }
}

/// A value of `serde_json`.
#[verifier::external_type_specification]
#[verifier::external_body]
pub struct ExValue(serde_json::Value);

/// What a value of `serde_json` holds.
pub uninterp spec fn json_value(value: serde_json::Value) -> JsonView;

/// What `serde_json` parses out of a text, or `None` where it is not JSON.
pub uninterp spec fn json_text(text: Seq<char>) -> Option<JsonView>;

/// `serde_json::from_str`: the value that a text stands for, which depends on
/// the text alone.
#[verifier::external_body]
fn parse_value(text: &str) -> (r: Option<serde_json::Value>)
    ensures
        match r {
            Some(value) => json_text(text@) == Some(json_value(value)),
            None => json_text(text@) is None,
        },
{
    serde_json::from_str(text).ok()
}

/// A value of `serde_json`, with the values in it as they are.
enum Opened<'a> {
    Null,
    Bool(bool),
    Number { whole: Option<i64>, bits: Option<u64> },
    Text(String),
    Array(Vec<&'a serde_json::Value>),
    Object(Vec<(String, &'a serde_json::Value)>),
}

/// The variant of a `serde_json::Value`, with its fields. A number gives what
/// `Number::as_i64` returns, and the bits of the double that `Number::as_f64`
/// returns.
#[verifier::external_body]
fn open_value<'a>(value: &'a serde_json::Value) -> (r: Opened<'a>)
    ensures
        match r {
            Opened::Null => json_value(*value) == JsonView::Null,
            Opened::Bool(b) => json_value(*value) == JsonView::Bool(b),
            Opened::Number { whole, bits } => json_value(*value) == (JsonView::Number {
                whole,
                bits,
            }),
            Opened::Text(s) => json_value(*value) == JsonView::Text(s@),
            Opened::Array(items) => json_value(*value) == JsonView::Array(
                Seq::new(items@.len(), |i: int| json_value(*items@[i])),
            ),
            Opened::Object(members) => json_value(*value) == JsonView::Object(
                Seq::new(members@.len(), |i: int| (members@[i].0@, json_value(*members@[i].1))),
            ),
        },
{
    match value {
        serde_json::Value::Null => Opened::Null,
        serde_json::Value::Bool(b) => Opened::Bool(*b),
        serde_json::Value::Number(n) => Opened::Number {
            whole: n.as_i64(),
            bits: n.as_f64().map(|d| d.to_bits()),
        },
        serde_json::Value::String(s) => Opened::Text(s.clone()),
        serde_json::Value::Array(v) => Opened::Array(v.iter().collect()),
        serde_json::Value::Object(m) => Opened::Object(m.iter().map(|(k, v)| (k.clone(), v)).collect()),
    }
}

/// The library's form of a value of `serde_json`.
fn to_json(value: &serde_json::Value) -> (r: Json)
    ensures
        r@ == json_value(*value),
    decreases json_value(*value),
{
    match open_value(value) {
        Opened::Null => Json::Null,
        Opened::Bool(b) => Json::Bool(b),
        Opened::Number { whole, bits } => Json::Number { whole, bits },
        Opened::Text(s) => Json::Text(s),
        Opened::Array(items) => {
            let ghost views = json_value(*value)->Array_0;
            let mut out: Vec<Json> = Vec::new();
            let mut i: usize = 0;
            while i < items.len()
                invariant
                    i <= items@.len(),
                    out@.len() == i,
                    json_value(*value) == JsonView::Array(views),
                    views == Seq::new(items@.len(), |k: int| json_value(*items@[k])),
                    forall|k: int| 0 <= k < i ==> (#[trigger] out@[k])@ == views[k],
                decreases items@.len() - i,
            {
                proof {
                    let whole = json_value(*value);
                    assert(views[i as int] == json_value(*items@[i as int]));
                    assert(decreases_to!(whole => whole->Array_0));
                    assert(decreases_to!(whole->Array_0 => whole->Array_0[i as int]));
                }
                let item = to_json(items[i]);
                out.push(item);
                i += 1;
            }
            let r = Json::Array(out);
            proof {
                assert(r@->Array_0 =~= views);
            }
            r
        },
        Opened::Object(members) => {
            let ghost views = json_value(*value)->Object_0;
            let mut out: Vec<(String, Json)> = Vec::new();
            let mut i: usize = 0;
            while i < members.len()
                invariant
                    i <= members@.len(),
                    out@.len() == i,
                    json_value(*value) == JsonView::Object(views),
                    views == Seq::new(
                        members@.len(),
                        |k: int| (members@[k].0@, json_value(*members@[k].1)),
                    ),
                    forall|k: int|
                        0 <= k < i ==> ((#[trigger] out@[k]).0@, out@[k].1@) == views[k],
                decreases members@.len() - i,
            {
                proof {
                    let whole = json_value(*value);
                    assert(views[i as int].1 == json_value(*members@[i as int].1));
                    assert(decreases_to!(whole => whole->Object_0));
                    assert(decreases_to!(whole->Object_0 => whole->Object_0[i as int]));
                    assert(decreases_to!(whole->Object_0[i as int] => whole->Object_0[i as int].1));
                }
                let member = to_json(members[i].1);
                out.push((members[i].0.clone(), member));
                i += 1;
            }
            let r = Json::Object(out);
            proof {
                assert(r@->Object_0 =~= views);
            }
            r
        },
    }
}

/// Parses a text as JSON, or gives `None` where it is not.
pub fn parse_json(text: &str) -> (r: Option<Json>)
    ensures
        match r {
            Some(json) => json_text(text@) == Some(json@),
            None => json_text(text@) is None,
        },
{
    match parse_value(text) {
        Some(value) => Some(to_json(&value)),
        None => None,
    }
}

impl JsonView {
    /// The first member of an object that has this name.
    pub open spec fn member(self, name: Seq<char>) -> Option<JsonView> {
        match self {
            JsonView::Object(members) => first_named(members, name),
            _ => None,
        }
    }

    /// The text of a string.
    pub open spec fn as_text(self) -> Option<Seq<char>> {
        match self {
            JsonView::Text(s) => Some(s),
            _ => None,
        }
    }
}

/// The first of `members` that has this name.
pub open spec fn first_named(
    members: Seq<(Seq<char>, JsonView)>,
    name: Seq<char>,
) -> Option<JsonView>
    decreases members.len(),
{
    if members.len() == 0 {
        None
    } else if members[0].0 == name {
        Some(members[0].1)
    } else {
        first_named(members.skip(1), name)
    }
}

/// The members of an object's view.
pub open spec fn member_views(members: Seq<(String, Json)>) -> Seq<(Seq<char>, JsonView)> {
    Seq::new(members.len(), |k: int| (members[k].0@, members[k].1@))
}

/// The view of an object is that of its members.
pub proof fn lemma_object_view(members: Vec<(String, Json)>)
    ensures
        Json::Object(members)@ == JsonView::Object(member_views(members@)),
{
    let whole = Json::Object(members);
    assert(whole@->Object_0 =~= member_views(members@));
}

impl Json {
    /// The first member of an object that has this name.
    pub fn get(&self, name: &str) -> (r: Option<&Json>)
        ensures
            match r {
                Some(json) => self@.member(name@) == Some(json@),
                None => self@.member(name@) is None,
            },
    {
        match self {
            Json::Object(members) => {
                let ghost views = self@->Object_0;
                let mut i: usize = 0;
                proof {
                    lemma_object_view(*members);
                    assert(views.skip(0) =~= views);
                }
                while i < members.len()
                    invariant
                        i <= members@.len(),
                        views.len() == members@.len(),
                        self@ == JsonView::Object(views),
                        *self == Json::Object(*members),
                        forall|k: int|
                            0 <= k < members@.len() ==> #[trigger] views[k] == (
                                members@[k].0@,
                                members@[k].1@,
                            ),
                        first_named(views, name@) == first_named(views.skip(i as int), name@),
                    decreases members@.len() - i,
                {
                    proof {
                        let rest = views.skip(i as int);
                        assert(rest[0] == views[i as int]);
                        assert(rest.skip(1) =~= views.skip(i + 1));
                    }
                    if same_text(members[i].0.as_str(), name) {
                        return Some(&members[i].1);
                    }
                    i += 1;
                }
                None
            },
            _ => None,
        }
    }

    /// The text of a string.
    pub fn as_str(&self) -> (r: Option<&str>)
        ensures
            match r {
                Some(s) => self@.as_text() == Some(s@),
                None => self@.as_text() is None,
            },
    {
        match self {
            Json::Text(s) => Some(s.as_str()),
            _ => None,
        }
    }
}

/// Of the members of an object that have a name, the first one counts; without one
/// there is none.
pub proof fn law_the_first_member_of_a_name_counts(
    members: Seq<(Seq<char>, JsonView)>,
    name: Seq<char>,
)
    ensures
        forall|i: int|
            0 <= i < members.len() && (#[trigger] members[i]).0 == name && (forall|j: int|
                0 <= j < i ==> (#[trigger] members[j]).0 != name) ==> JsonView::Object(
                members,
            ).member(name) == Some(members[i].1),
        (forall|i: int| 0 <= i < members.len() ==> (#[trigger] members[i]).0 != name)
            <==> JsonView::Object(members).member(name) is None,
    decreases members.len(),
{
    if members.len() > 0 {
        let rest = members.skip(1);
        law_the_first_member_of_a_name_counts(rest, name);
        assert forall|i: int|
            0 <= i < members.len() && (#[trigger] members[i]).0 == name && (forall|j: int|
                0 <= j < i ==> (#[trigger] members[j]).0 != name) implies JsonView::Object(
            members,
        ).member(name) == Some(members[i].1) by {
            if i > 0 {
                assert(members[0].0 != name);
                assert(rest[i - 1] == members[i]);
                assert forall|j: int| 0 <= j < i - 1 implies (#[trigger] rest[j]).0 != name by {
                    assert(rest[j] == members[j + 1]);
                }
            }
        }
        if forall|i: int| 0 <= i < members.len() ==> (#[trigger] members[i]).0 != name {
            assert forall|i: int| 0 <= i < rest.len() implies (#[trigger] rest[i]).0 != name by {
                assert(rest[i] == members[i + 1]);
            }
            assert(members[0].0 != name);
        } else {
            let i = choose|i: int| 0 <= i < members.len() && (#[trigger] members[i]).0 == name;
            if i > 0 {
                assert(rest[i - 1] == members[i]);
            }
        }
    }
}

} // verus!
