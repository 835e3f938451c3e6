//! What git's own instrumentation says of one of its commands.
//!
//! git writes a stream of events, one JSON object on a line. Two kinds of them
//! count here: the end of a region, with the seconds spent in it, and a counter.
//! Nothing about the stream is promised, so a line that cannot be read is
//! skipped. Seconds are doubles, known by their bits.

use vstd::prelude::*;

use crate::json::{Json, JsonView};
use crate::metrics::{parse_lines, parsed_lines, record_views};
use crate::text::{integer_of, lines_of, parse_integer, same_text};

verus! {

/// The environment variable that says where git writes its events.
pub const TRACE2_EVENT_ENV: &'static str = "GIT_TRACE2_EVENT";

/// An event that counts.
#[derive(Debug)]
pub enum TraceEvent {
    /// A region was left.
    Leave {
        /// Its category.
        category: String,
        /// Its label.
        label: String,
        /// The bits of the seconds spent in it.
        seconds: u64,
    },
    /// A counter was reported.
    Data {
        /// Its category.
        category: String,
        /// Its key.
        key: String,
        /// Its value.
        value: i64,
    },
}

/// The view of a [`TraceEvent`].
pub enum EventView {
    Leave { category: Seq<char>, label: Seq<char>, seconds: u64 },
    Data { category: Seq<char>, key: Seq<char>, value: i64 },
}

impl View for TraceEvent {
    type V = EventView;

    open spec fn view(&self) -> EventView {
        match self {
            TraceEvent::Leave { category, label, seconds } => EventView::Leave {
                category: category@,
                label: label@,
                seconds: *seconds,
            },
            TraceEvent::Data { category, key, value } => EventView::Data {
                category: category@,
                key: key@,
                value: *value,
            },
        }
    }
}

/// The text of a member.
pub open spec fn text_member(record: JsonView, name: Seq<char>) -> Option<Seq<char>> {
    match record.member(name) {
        Some(value) => value.as_text(),
        None => None,
    }
}

/// The value of a counter: an integer, or a text that stands for one.
pub open spec fn counter_value(value: JsonView) -> Option<i64> {
    match value {
        JsonView::Number { whole, .. } => whole,
        JsonView::Text(s) => integer_of(s),
        _ => None,
    }
}

/// The bits of a number.
pub open spec fn number_bits(value: JsonView) -> Option<u64> {
    match value {
        JsonView::Number { bits, .. } => bits,
        _ => None,
    }
}

/// The event that a record stands for, if it is one that counts.
pub open spec fn event_of(record: JsonView) -> Option<EventView> {
    let kind = text_member(record, "event"@);
    let category = text_member(record, "category"@);
    if kind == Some("region_leave"@) {
        let label = text_member(record, "label"@);
        let seconds = match record.member("t_rel"@) {
            Some(value) => number_bits(value),
            None => None,
        };
        if category is Some && label is Some && seconds is Some {
            Some(
                EventView::Leave { category: category->0, label: label->0, seconds: seconds->0 },
            )
        } else {
            None
        }
    } else if kind == Some("data"@) {
        let key = text_member(record, "key"@);
        let value = match record.member("value"@) {
            Some(value) => counter_value(value),
            None => None,
        };
        if category is Some && key is Some && value is Some {
            Some(EventView::Data { category: category->0, key: key->0, value: value->0 })
        } else {
            None
        }
    } else {
        None
    }
}

/// The events that count, in order.
pub open spec fn events_of(records: Seq<JsonView>) -> Seq<EventView>
    decreases records.len(),
{
    if records.len() == 0 {
        Seq::empty()
    } else {
        match event_of(records.last()) {
            Some(event) => events_of(records.drop_last()).push(event),
            None => events_of(records.drop_last()),
        }
    }
}

/// The seconds of every time that a region was left, in order.
pub open spec fn seconds_in(events: Seq<EventView>, category: Seq<char>, label: Seq<char>) -> Seq<
    u64,
>
    decreases events.len(),
{
    if events.len() == 0 {
        Seq::empty()
    } else {
        let front = seconds_in(events.drop_last(), category, label);
        match events.last() {
            EventView::Leave { category: c, label: l, seconds } => if c == category && l == label {
                front.push(seconds)
            } else {
                front
            },
            _ => front,
        }
    }
}

/// The value of a counter that was reported last.
pub open spec fn last_value(events: Seq<EventView>, category: Seq<char>, key: Seq<char>) -> Option<
    i64,
>
    decreases events.len(),
{
    if events.len() == 0 {
        None
    } else {
        match events.last() {
            EventView::Data { category: c, key: k, value } => if c == category && k == key {
                Some(value)
            } else {
                last_value(events.drop_last(), category, key)
            },
            _ => last_value(events.drop_last(), category, key),
        }
    }
}

/// What one git command reported. Its view is the events that count.
#[derive(Debug)]
pub struct Trace2 {
    events: Vec<TraceEvent>,
}

/// The views of a list of events.
pub open spec fn event_views(v: Seq<TraceEvent>) -> Seq<EventView> {
    Seq::new(v.len(), |i: int| v[i]@)
}

impl View for Trace2 {
    type V = Seq<EventView>;

    closed spec fn view(&self) -> Seq<EventView> {
        event_views(self.events@)
    }
}

fn member_text(record: &Json, name: &str) -> (r: Option<String>)
    ensures
        match r {
            Some(s) => text_member(record@, name@) == Some(s@),
            None => text_member(record@, name@) is None,
        },
{
    match record.get(name) {
        Some(value) => match value.as_str() {
            Some(s) => Some(s.to_owned()),
            None => None,
        },
        None => None,
    }
}

/// The value of a counter: an integer, or a text that stands for one.
pub fn as_i64(value: &Json) -> (r: Option<i64>)
    ensures
        r == counter_value(value@),
{
    match value {
        Json::Number { whole, .. } => *whole,
        Json::Text(s) => parse_integer(s.as_str()),
        _ => None,
    }
}

fn bits_of(value: &Json) -> (r: Option<u64>)
    ensures
        r == number_bits(value@),
{
    match value {
        Json::Number { bits, .. } => *bits,
        _ => None,
    }
}

/// The event that a record stands for, if it is one that counts.
pub fn read_event(record: &Json) -> (r: Option<TraceEvent>)
    ensures
        match r {
            Some(event) => event_of(record@) == Some(event@),
            None => event_of(record@) is None,
        },
{
    let kind = match member_text(record, "event") {
        Some(kind) => kind,
        None => return None,
    };
    let category = member_text(record, "category");
    if same_text(kind.as_str(), "region_leave") {
        let label = member_text(record, "label");
        let seconds = match record.get("t_rel") {
            Some(value) => bits_of(value),
            None => None,
        };
        match (category, label, seconds) {
            (Some(category), Some(label), Some(seconds)) => Some(
                TraceEvent::Leave { category, label, seconds },
            ),
            _ => None,
        }
    } else if same_text(kind.as_str(), "data") {
        let key = member_text(record, "key");
        let value = match record.get("value") {
            Some(value) => as_i64(value),
            None => None,
        };
        match (category, key, value) {
            (Some(category), Some(key), Some(value)) => Some(
                TraceEvent::Data { category, key, value },
            ),
            _ => None,
        }
    } else {
        None
    }
}

impl Trace2 {
    /// What the records of a stream report, or `None` where none of them counts.
    pub fn from_records(records: &Vec<Json>) -> (r: Option<Self>)
        ensures
            match r {
                Some(trace) => trace@ == events_of(record_views(records@)) && trace@.len() > 0,
                None => events_of(record_views(records@)).len() == 0,
            },
    {
        let ghost views = record_views(records@);
        let mut events: Vec<TraceEvent> = Vec::new();
        let mut i: usize = 0;
        proof {
            assert(views.take(0) =~= Seq::<JsonView>::empty());
            assert(event_views(events@) =~= Seq::<EventView>::empty());
        }
        while i < records.len()
            invariant
                i <= records@.len(),
                views == record_views(records@),
                event_views(events@) == events_of(views.take(i as int)),
            decreases records@.len() - i,
        {
            proof {
                let next = views.take(i + 1);
                assert(next.drop_last() =~= views.take(i as int));
                assert(next.last() == records@[i as int]@);
            }
            if let Some(event) = read_event(&records[i]) {
                proof {
                    assert(event_views(events@.push(event)) =~= event_views(events@).push(event@));
                }
                events.push(event);
            }
            i += 1;
        }
        proof {
            assert(views.take(views.len() as int) =~= views);
            assert(event_views(events@).len() == events@.len());
        }
        if events.len() == 0 {
            None
        } else {
            Some(Trace2 { events })
        }
    }

    /// As [`Trace2::from_records`], on the text of the stream. A line that is not
    /// JSON is skipped.
    pub fn from_text(contents: &str) -> (r: Option<Self>)
        ensures
            match r {
                Some(trace) => trace@ == events_of(parsed_lines(lines_of(contents@)))
                    && trace@.len() > 0,
                None => events_of(parsed_lines(lines_of(contents@))).len() == 0,
            },
    {
        let records = parse_lines(contents);
        Self::from_records(&records)
    }

    /// The seconds of every time that a region was left, in order, or `None`
    /// where it never was.
    pub fn region_seconds(&self, category: &str, label: &str) -> (r: Option<Vec<u64>>)
        ensures
            match r {
                Some(seconds) => seconds@ == seconds_in(self@, category@, label@) && seconds@.len()
                    > 0,
                None => seconds_in(self@, category@, label@).len() == 0,
            },
    {
        let ghost views = event_views(self.events@);
        let mut out: Vec<u64> = Vec::new();
        let mut i: usize = 0;
        proof {
            assert(views.take(0) =~= Seq::<EventView>::empty());
            assert(out@ =~= Seq::<u64>::empty());
        }
        while i < self.events.len()
            invariant
                i <= self.events@.len(),
                views == event_views(self.events@),
                out@ == seconds_in(views.take(i as int), category@, label@),
            decreases self.events@.len() - i,
        {
            proof {
                let next = views.take(i + 1);
                assert(next.drop_last() =~= views.take(i as int));
                assert(next.last() == self.events@[i as int]@);
            }
            match &self.events[i] {
                TraceEvent::Leave { category: c, label: l, seconds } => {
                    if same_text(c.as_str(), category) && same_text(l.as_str(), label) {
                        out.push(*seconds);
                    }
                },
                _ => {},
            }
            i += 1;
        }
        proof {
            assert(views.take(views.len() as int) =~= views);
        }
        if out.len() == 0 {
            None
        } else {
            Some(out)
        }
    }

    /// The value of a counter that was reported last.
    pub fn data_i64(&self, category: &str, key: &str) -> (r: Option<i64>)
        ensures
            r == last_value(self@, category@, key@),
    {
        let ghost views = event_views(self.events@);
        let mut i: usize = self.events.len();
        proof {
            assert(views.take(views.len() as int) =~= views);
        }
        while i > 0
            invariant
                i <= self.events@.len(),
                views == event_views(self.events@),
                self@ == views,
                last_value(views, category@, key@) == last_value(
                    views.take(i as int),
                    category@,
                    key@,
                ),
            decreases i,
        {
            i -= 1;
            proof {
                let here = views.take(i + 1);
                assert(here.drop_last() =~= views.take(i as int));
                assert(here.last() == self.events@[i as int]@);
            }
            match &self.events[i] {
                TraceEvent::Data { category: c, key: k, value } => {
                    if same_text(c.as_str(), category) && same_text(k.as_str(), key) {
                        return Some(*value);
                    }
                },
                _ => {},
            }
        }
        None
    }
}

/// Whether a member of a record is this text.
pub open spec fn says(record: JsonView, name: Seq<char>, text: Seq<char>) -> bool {
    record.member(name) == Some(JsonView::Text(text))
}

/// A record counts as the end of a region exactly where it says that it is one,
/// names the category and the label, and gives the seconds as a number; it counts
/// as a counter exactly where it says so, names the category and the key, and
/// gives the value as an integer or as a text that stands for one.
pub proof fn law_an_event_says_what_its_record_says(
    record: JsonView,
    category: Seq<char>,
    name: Seq<char>,
    seconds: u64,
    value: i64,
)
    ensures
        event_of(record) == Some(EventView::Leave { category, label: name, seconds }) <==> {
            &&& says(record, "event"@, "region_leave"@)
            &&& says(record, "category"@, category)
            &&& says(record, "label"@, name)
            &&& record.member("t_rel"@) matches Some(JsonView::Number { bits, .. }) && bits == Some(
                seconds,
            )
        },
        event_of(record) == Some(EventView::Data { category, key: name, value }) <==> {
            &&& says(record, "event"@, "data"@)
            &&& says(record, "category"@, category)
            &&& says(record, "key"@, name)
            &&& match record.member("value"@) {
                Some(JsonView::Number { whole, .. }) => whole == Some(value),
                Some(JsonView::Text(digits)) => integer_of(digits) == Some(value),
                _ => false,
            }
        },
{
    reveal_strlit("region_leave");
    reveal_strlit("data");
    assert("data"@.len() == 4 && "region_leave"@.len() == 12);
    lemma_text_member(record, "event"@);
    lemma_text_member(record, "category"@);
    lemma_text_member(record, "label"@);
    lemma_text_member(record, "key"@);
}

proof fn lemma_text_member(record: JsonView, name: Seq<char>)
    ensures
        forall|text: Seq<char>|
            #![trigger says(record, name, text)]
            text_member(record, name) == Some(text) <==> says(record, name, text),
        text_member(record, name) matches Some(text) ==> says(record, name, text),
{
}

/// The events of records are those of each record, in order: nothing that counts
/// is lost, and nothing else comes in.
pub proof fn law_events_are_those_of_each_record(a: Seq<JsonView>, b: Seq<JsonView>)
    ensures
        events_of(a + b) == events_of(a) + events_of(b),
        a.len() == 1 ==> events_of(a) == match event_of(a[0]) {
            Some(event) => seq![event],
            None => Seq::empty(),
        },
    decreases b.len(),
{
    if a.len() == 1 {
        assert(a.drop_last() =~= Seq::<JsonView>::empty());
        assert(events_of(a.drop_last()) =~= Seq::<EventView>::empty());
    }
    if b.len() == 0 {
        assert(a + b =~= a);
        assert(events_of(a) + events_of(b) =~= events_of(a));
    } else {
        law_events_are_those_of_each_record(a, b.drop_last());
        assert((a + b).drop_last() =~= a + b.drop_last());
        assert(events_of(a + b) =~= events_of(a) + events_of(b));
    }
}

/// The seconds of a region are those of each event that leaves it, in order.
pub proof fn law_seconds_are_those_of_each_leave(
    a: Seq<EventView>,
    b: Seq<EventView>,
    category: Seq<char>,
    label: Seq<char>,
    seconds: u64,
)
    ensures
        seconds_in(a + b, category, label) == seconds_in(a, category, label) + seconds_in(
            b,
            category,
            label,
        ),
        a.len() == 1 && a[0] == (EventView::Leave { category, label, seconds }) ==> seconds_in(
            a,
            category,
            label,
        ) == seq![seconds],
        a.len() == 1 && !(a[0] matches EventView::Leave { category: c, label: l, .. } && c
            == category && l == label) ==> seconds_in(a, category, label).len() == 0,
    decreases b.len(),
{
    if a.len() == 1 {
        assert(a.drop_last() =~= Seq::<EventView>::empty());
        assert(seconds_in(a.drop_last(), category, label) =~= Seq::<u64>::empty());
    }
    if b.len() == 0 {
        assert(a + b =~= a);
        assert(seconds_in(a, category, label) + seconds_in(b, category, label) =~= seconds_in(
            a,
            category,
            label,
        ));
    } else {
        law_seconds_are_those_of_each_leave(a, b.drop_last(), category, label, seconds);
        assert((a + b).drop_last() =~= a + b.drop_last());
        assert(seconds_in(a + b, category, label) =~= seconds_in(a, category, label) + seconds_in(
            b,
            category,
            label,
        ));
    }
}

/// Whether an event reports this counter.
pub open spec fn reports(event: EventView, category: Seq<char>, key: Seq<char>) -> bool {
    event matches EventView::Data { category: c, key: k, .. } && c == category && k == key
}

/// The value of a counter is that of the last event that reports it, and there is
/// none where no event does.
pub proof fn law_the_last_report_of_a_counter_counts(
    events: Seq<EventView>,
    category: Seq<char>,
    key: Seq<char>,
    i: int,
)
    ensures
        0 <= i < events.len() && reports(events[i], category, key) && (forall|j: int|
            i < j < events.len() ==> !reports(#[trigger] events[j], category, key)) ==> last_value(
            events,
            category,
            key,
        ) == Some(events[i]->value),
        last_value(events, category, key) is None <==> forall|j: int|
            0 <= j < events.len() ==> !reports(#[trigger] events[j], category, key),
    decreases events.len(),
{
    if events.len() > 0 {
        let front = events.drop_last();
        let n = events.len() - 1;
        law_the_last_report_of_a_counter_counts(front, category, key, i);
        assert forall|j: int| 0 <= j < front.len() implies #[trigger] front[j] == events[j] by {}
        assert(events[n] == events.last());
        if reports(events.last(), category, key) {
            assert(!(last_value(events, category, key) is None));
        } else {
            if 0 <= i < n && reports(events[i], category, key) && (forall|j: int|
                i < j < events.len() ==> !reports(#[trigger] events[j], category, key)) {
                assert forall|j: int| i < j < front.len() implies !reports(
                    #[trigger] front[j],
                    category,
                    key,
                ) by {
                    assert(front[j] == events[j]);
                }
            }
            if forall|j: int| 0 <= j < front.len() ==> !reports(#[trigger] front[j], category, key) {
                assert forall|j: int| 0 <= j < events.len() implies !reports(
                    #[trigger] events[j],
                    category,
                    key,
                ) by {
                    if j < n {
                        assert(front[j] == events[j]);
                    }
                }
            }
            if forall|j: int|
                0 <= j < events.len() ==> !reports(#[trigger] events[j], category, key) {
                assert forall|j: int| 0 <= j < front.len() implies !reports(
                    #[trigger] front[j],
                    category,
                    key,
                ) by {
                    assert(front[j] == events[j]);
                }
            }
        }
    }
}

} // verus!
