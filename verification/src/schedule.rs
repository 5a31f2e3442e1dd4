//! The schedule section: timed events under the "Planned" and "Actual" labels.

use crate::error::{PlanError, PlanErrorV};
use crate::node::{
    children_of, get_node_text, lemma_nodes_view, node_children, node_text, node_view, nodes_view,
    Node, NodeV,
};
use crate::text::{
    eq_lower, filter_nonempty, keep_nonempty, lower_seq, split_char, split_str, strs_view, trim,
    trim_spec,
};
use crate::time::{parse_hhmm_spec, time_str, Time};
use vstd::prelude::*;

verus! {

/// Which of the two sub-sections events are being read into.
#[derive(Debug, Clone, Copy, PartialEq, Eq, Structural)]
pub enum ScheduleSection {
    Planned,
    Actual,
}

/// One timestamped schedule entry. A value exists only when both the time
/// and the description parsed; partial data never reaches the model.
#[derive(Debug, Clone)]
pub struct Event {
    description: String,
    start: Time,
}

/// The mathematical shape of an `Event`.
#[verifier::ext_equal]
pub struct EventV {
    pub description: Seq<char>,
    pub start: Time,
}

impl View for Event {
    type V = EventV;

    closed spec fn view(&self) -> EventV {
        EventV { description: self.description@, start: self.start }
    }
}

/// The views of a sequence of events.
pub open spec fn events_view(s: Seq<Event>) -> Seq<EventV> {
    s.map_values(|e: Event| e@)
}

impl Event {
    pub fn description(&self) -> (r: &str)
        ensures
            r@ == self@.description,
    {
        self.description.as_str()
    }

    pub fn start(&self) -> (r: &Time)
        ensures
            *r == self@.start,
    {
        &self.start
    }
}

/// The two event lists; their lengths are independent and unpaired.
#[derive(Debug, Clone)]
pub struct Schedule {
    planned: Vec<Event>,
    actual: Vec<Event>,
}

/// The mathematical shape of a `Schedule`.
#[verifier::ext_equal]
pub struct SchedV {
    pub planned: Seq<EventV>,
    pub actual: Seq<EventV>,
}

impl View for Schedule {
    type V = SchedV;

    closed spec fn view(&self) -> SchedV {
        SchedV { planned: events_view(self.planned@), actual: events_view(self.actual@) }
    }
}

impl Schedule {
    pub fn planned(&self) -> (r: &[Event])
        ensures
            events_view(r@) == self@.planned,
    {
        self.planned.as_slice()
    }

    pub fn actual(&self) -> (r: &[Event])
        ensures
            events_view(r@) == self@.actual,
    {
        self.actual.as_slice()
    }

    /// Empties both event lists: a new day starts with no recorded schedule.
    pub fn clean(&mut self)
        ensures
            final(self)@ == (SchedV { planned: Seq::empty(), actual: Seq::empty() }),
    {
        self.planned = Vec::new();
        self.actual = Vec::new();
        proof {
            assert(self@ =~= (SchedV {
                planned: Seq::<EventV>::empty(),
                actual: Seq::<EventV>::empty(),
            }));
        }
    }
}

/// The event an item's text yields: the pieces between tabs that are not
/// empty, the first a valid `HHMM` time, the second the description; any
/// failure drops the event.
pub open spec fn event_of_text(text: Seq<char>) -> Option<EventV> {
    let pieces = keep_nonempty(split_char(text, '\t'));
    if pieces.len() >= 2 {
        match parse_hhmm_spec(pieces[0]) {
            Some(t) => Some(EventV { description: pieces[1], start: t }),
            None => None,
        }
    } else {
        None
    }
}

/// The event one list child yields; only `Item` children can yield one.
pub open spec fn event_of_item(n: NodeV) -> Option<EventV> {
    match n {
        NodeV::Item { .. } => event_of_text(node_text(n)),
        _ => None,
    }
}

/// The events of a nested list's children, in order, unparsable ones dropped.
pub open spec fn events_of_items(children: Seq<NodeV>) -> Seq<EventV>
    decreases children.len(),
{
    if children.len() == 0 {
        Seq::empty()
    } else {
        (match event_of_item(children[0]) {
            Some(e) => seq![e],
            None => Seq::<EventV>::empty(),
        }) + events_of_items(children.drop_first())
    }
}

/// The state of the schedule parse: the current sub-section and the events
/// gathered so far.
#[verifier::ext_equal]
pub struct SchedAcc {
    pub sec: ScheduleSection,
    pub planned: Seq<EventV>,
    pub actual: Seq<EventV>,
}

/// Appends events to the list the current sub-section selects.
pub open spec fn add_events(acc: SchedAcc, evs: Seq<EventV>) -> SchedAcc {
    match acc.sec {
        ScheduleSection::Planned => SchedAcc {
            sec: acc.sec,
            planned: acc.planned + evs,
            actual: acc.actual,
        },
        ScheduleSection::Actual => SchedAcc {
            sec: acc.sec,
            planned: acc.planned,
            actual: acc.actual + evs,
        },
    }
}

/// Which sub-section a label paragraph names, if either.
pub open spec fn label_of(t: Seq<char>) -> Option<ScheduleSection> {
    let l = lower_seq(trim_spec(t));
    if l == "planned"@ {
        Some(ScheduleSection::Planned)
    } else if l == "actual"@ {
        Some(ScheduleSection::Actual)
    } else {
        None
    }
}

/// Walks the children of one top-level item: a paragraph must name a
/// sub-section, else the whole parse fails with its text; a nested list adds
/// its events to the current sub-section; anything else is skipped.
pub open spec fn item_fold(acc: SchedAcc, children: Seq<NodeV>) -> Result<SchedAcc, Seq<char>>
    decreases children.len(),
{
    if children.len() == 0 {
        Ok(acc)
    } else {
        match children[0] {
            NodeV::Paragraph { .. } => match label_of(node_text(children[0])) {
                Some(sec) => item_fold(
                    SchedAcc { sec, planned: acc.planned, actual: acc.actual },
                    children.drop_first(),
                ),
                None => Err(node_text(children[0])),
            },
            NodeV::List { children: inner } => item_fold(
                add_events(acc, events_of_items(inner)),
                children.drop_first(),
            ),
            _ => item_fold(acc, children.drop_first()),
        }
    }
}

/// Walks the top-level children of the schedule list: each item is folded
/// with `item_fold`, anything else skipped; the sub-section carries across
/// items, starting at `Planned`.
pub open spec fn sched_fold(acc: SchedAcc, children: Seq<NodeV>) -> Result<SchedAcc, Seq<char>>
    decreases children.len(),
{
    if children.len() == 0 {
        Ok(acc)
    } else {
        match children[0] {
            NodeV::Item { children: inner } => match item_fold(acc, inner) {
                Ok(acc2) => sched_fold(acc2, children.drop_first()),
                Err(t) => Err(t),
            },
            _ => sched_fold(acc, children.drop_first()),
        }
    }
}

/// The schedule a list node yields, or the offending label text.
pub open spec fn parse_schedule_spec(n: NodeV) -> Result<SchedV, Seq<char>> {
    match sched_fold(
        SchedAcc { sec: ScheduleSection::Planned, planned: Seq::empty(), actual: Seq::empty() },
        children_of(n),
    ) {
        Ok(acc) => Ok(SchedV { planned: acc.planned, actual: acc.actual }),
        Err(t) => Err(t),
    }
}

/// The labels the serializer writes are exactly the ones the schedule
/// parser accepts.
pub proof fn lemma_canonical_labels()
    ensures
        label_of("Planned"@) == Some(ScheduleSection::Planned),
        label_of("Actual"@) == Some(ScheduleSection::Actual),
        trim_spec("Planned"@) == "Planned"@,
        trim_spec("Actual"@) == "Actual"@,
{
    reveal_strlit("Planned");
    reveal_strlit("planned");
    reveal_strlit("Actual");
    reveal_strlit("actual");
    assert forall|i: int|
        0 <= i < "Planned"@.len() implies !crate::text::is_ws(#[trigger] "Planned"@[i]) by {}
    crate::text::lemma_trim_no_ws("Planned"@);
    assert(lower_seq("Planned"@) =~= "planned"@);
    assert forall|i: int|
        0 <= i < "Actual"@.len() implies !crate::text::is_ws(#[trigger] "Actual"@[i]) by {}
    crate::text::lemma_trim_no_ws("Actual"@);
    assert(lower_seq("Actual"@) =~= "actual"@);
    assert(lower_seq("Actual"@) != "planned"@) by {
        assert("actual"@.len() != "planned"@.len());
    }
}

/// Whether every event holds a valid time, executable form.
pub fn events_all_wf(events: &[Event]) -> (r: bool)
    ensures
        r == events_wf(events_view(events@)),
{
    let ghost all = events_view(events@);
    let n = events.len();
    let mut i: usize = 0;
    while i < n
        invariant
            0 <= i <= n,
            n == events@.len(),
            all == events_view(events@),
            forall|k: int| 0 <= k < i ==> (#[trigger] all[k]).start.wf(),
        decreases n - i,
    {
        let start = events[i].start();
        if !(start.hour < 24 && start.minute < 60) {
            proof {
                assert(!all[i as int].start.wf());
            }
            return false;
        }
        i = i + 1;
    }
    true
}

/// Reading back a serialized event yields the event: the rendered time and
/// the description, split at the tab, survive unchanged. The description
/// must be non-empty and free of tabs, as serialized events are.
pub proof fn lemma_event_text_round_trip(t: Time, desc: Seq<char>)
    requires
        t.wf(),
        desc.len() > 0,
        forall|i: int| 0 <= i < desc.len() ==> #[trigger] desc[i] != '\t',
    ensures
        event_of_text(time_str(t) + "\t"@ + desc) == Some(
            EventV { description: desc, start: t },
        ),
{
    reveal_strlit("\t");
    crate::text::lemma_pad2_val(t.hour as int);
    crate::text::lemma_pad2_val(t.minute as int);
    crate::time::lemma_time_round_trip(t);
    let ts = time_str(t);
    let text = ts + "\t"@ + desc;
    assert(ts.len() == 4);
    assert(text.len() == 5 + desc.len());
    assert forall|i: int| 0 <= i < text.len() implies (#[trigger] text[i] == '\t') == (i == 4) by {
        if i < 4 {
            assert(text[i] == ts[i]);
            assert(crate::text::is_digit(ts[i]));
        } else if i > 4 {
            assert(text[i] == desc[i - 5]);
        }
    }
    crate::text::lemma_find_char_at(text, '\t', 4);
    let rest = text.subrange(5, text.len() as int);
    assert(rest =~= desc);
    assert(split_char(text, '\t') == seq![text.subrange(0, 4)] + split_char(rest, '\t'));
    crate::text::lemma_find_char_at(rest, '\t', rest.len() as int);
    assert(split_char(rest, '\t') == seq![rest]);
    let parts = split_char(text, '\t');
    assert(parts =~= seq![ts, desc]) by {
        assert(text.subrange(0, 4) =~= ts);
    }
    let pieces = keep_nonempty(parts);
    assert(pieces =~= seq![ts, desc]) by {
        assert(parts.len() == 2);
        assert(parts[0] == ts);
        assert(ts.len() == 4);
        assert(parts.drop_first() =~= seq![desc]);
        assert(keep_nonempty(parts) == seq![ts] + keep_nonempty(parts.drop_first()));
        assert(seq![desc][0] == desc);
        assert(seq![desc].drop_first() =~= Seq::<Seq<char>>::empty());
        assert(keep_nonempty(Seq::<Seq<char>>::empty()) == Seq::<Seq<char>>::empty());
        assert(keep_nonempty(seq![desc]) == seq![desc] + Seq::<Seq<char>>::empty());
    }
}

/// The events of a list distribute over splitting the list.
pub proof fn lemma_events_of_items_concat(a: Seq<NodeV>, b: Seq<NodeV>)
    ensures
        events_of_items(a + b) == events_of_items(a) + events_of_items(b),
    decreases a.len(),
{
    if a.len() == 0 {
        assert(a + b =~= b);
        assert(events_of_items(a) == Seq::<EventV>::empty());
        assert(events_of_items(a) + events_of_items(b) =~= events_of_items(b));
    } else {
        assert((a + b)[0] == a[0]);
        assert((a + b).drop_first() =~= a.drop_first() + b);
        lemma_events_of_items_concat(a.drop_first(), b);
        assert(events_of_items(a + b) =~= events_of_items(a) + events_of_items(b));
    }
}

/// An item whose event does not parse is dropped exactly where it stands,
/// never fatally: the events of a list around it are those of the same list
/// without it, in the same order.
pub proof fn lemma_unparsable_event_dropped(xs: Seq<NodeV>, n: NodeV, ys: Seq<NodeV>)
    requires
        event_of_item(n) is None,
    ensures
        events_of_items(xs + seq![n] + ys) == events_of_items(xs + ys),
{
    lemma_events_of_items_concat(xs + seq![n], ys);
    lemma_events_of_items_concat(xs, seq![n]);
    lemma_events_of_items_concat(xs, ys);
    assert(seq![n][0] == n);
    assert(seq![n].drop_first() =~= Seq::<NodeV>::empty());
    assert(events_of_items(Seq::<NodeV>::empty()) == Seq::<EventV>::empty());
    assert(events_of_items(seq![n]) =~= Seq::<EventV>::empty());
    assert(events_of_items(xs + seq![n] + ys) =~= events_of_items(xs + ys));
}

/// A label paragraph at position `j` that names neither sub-section.
pub open spec fn bad_label_at(children: Seq<NodeV>, j: int) -> bool {
    &&& 0 <= j < children.len()
    &&& children[j] is Paragraph
    &&& label_of(node_text(children[j])) is None
}

/// An item at position `i` holding a bad label at position `j`.
pub open spec fn item_with_bad_label_at(children: Seq<NodeV>, i: int, j: int) -> bool {
    &&& 0 <= i < children.len()
    &&& children[i] is Item
    &&& bad_label_at(children_of(children[i]), j)
}

/// When the item walk fails, some bad label stands in the item, and the
/// error carries that label's text.
proof fn lemma_item_fold_err_label(acc: SchedAcc, children: Seq<NodeV>)
    ensures
        item_fold(acc, children) is Err ==> exists|j: int|
            #[trigger] bad_label_at(children, j) && item_fold(acc, children)->Err_0 == node_text(
                children[j],
            ),
    decreases children.len(),
{
    if children.len() > 0 && item_fold(acc, children) is Err {
        let rest = children.drop_first();
        match children[0] {
            NodeV::Paragraph { .. } => {
                match label_of(node_text(children[0])) {
                    Some(sec) => {
                        let acc2 = SchedAcc { sec, planned: acc.planned, actual: acc.actual };
                        lemma_item_fold_err_label(acc2, rest);
                        let j0 = choose|j: int|
                            #[trigger] bad_label_at(rest, j) && item_fold(acc2, rest)->Err_0
                                == node_text(rest[j]);
                        assert(rest[j0] == children[j0 + 1]);
                        assert(bad_label_at(children, j0 + 1));
                    },
                    None => {
                        assert(bad_label_at(children, 0));
                    },
                }
            },
            NodeV::List { children: inner } => {
                let acc2 = add_events(acc, events_of_items(inner));
                lemma_item_fold_err_label(acc2, rest);
                let j0 = choose|j: int|
                    #[trigger] bad_label_at(rest, j) && item_fold(acc2, rest)->Err_0 == node_text(
                        rest[j],
                    );
                assert(rest[j0] == children[j0 + 1]);
                assert(bad_label_at(children, j0 + 1));
            },
            _ => {
                lemma_item_fold_err_label(acc, rest);
                let j0 = choose|j: int|
                    #[trigger] bad_label_at(rest, j) && item_fold(acc, rest)->Err_0 == node_text(
                        rest[j],
                    );
                assert(rest[j0] == children[j0 + 1]);
                assert(bad_label_at(children, j0 + 1));
            },
        }
    }
}

/// A bad label in the item makes the item walk fail, whatever the state.
proof fn lemma_item_fold_bad_label_errs(acc: SchedAcc, children: Seq<NodeV>, j: int)
    requires
        bad_label_at(children, j),
    ensures
        item_fold(acc, children) is Err,
    decreases children.len(),
{
    let rest = children.drop_first();
    match children[0] {
        NodeV::Paragraph { .. } => {
            match label_of(node_text(children[0])) {
                Some(sec) => {
                    assert(j != 0);
                    assert(rest[j - 1] == children[j]);
                    let acc2 = SchedAcc { sec, planned: acc.planned, actual: acc.actual };
                    lemma_item_fold_bad_label_errs(acc2, rest, j - 1);
                },
                None => {},
            }
        },
        NodeV::List { children: inner } => {
            assert(j != 0);
            assert(rest[j - 1] == children[j]);
            lemma_item_fold_bad_label_errs(add_events(acc, events_of_items(inner)), rest, j - 1);
        },
        _ => {
            assert(j != 0);
            assert(rest[j - 1] == children[j]);
            lemma_item_fold_bad_label_errs(acc, rest, j - 1);
        },
    }
}

/// When the schedule walk fails, some item holds a bad label, and the error
/// carries that label's text.
proof fn lemma_sched_fold_err_label(acc: SchedAcc, children: Seq<NodeV>)
    ensures
        sched_fold(acc, children) is Err ==> exists|i: int, j: int|
            #[trigger] item_with_bad_label_at(children, i, j) && sched_fold(acc, children)->Err_0
                == node_text(children_of(children[i])[j]),
    decreases children.len(),
{
    if children.len() > 0 && sched_fold(acc, children) is Err {
        let rest = children.drop_first();
        match children[0] {
            NodeV::Item { children: inner } => {
                match item_fold(acc, inner) {
                    Err(t) => {
                        lemma_item_fold_err_label(acc, inner);
                        let j0 = choose|j: int|
                            #[trigger] bad_label_at(inner, j) && item_fold(acc, inner)->Err_0
                                == node_text(inner[j]);
                        assert(children_of(children[0]) == inner);
                        assert(item_with_bad_label_at(children, 0, j0));
                    },
                    Ok(acc2) => {
                        lemma_sched_fold_err_label(acc2, rest);
                        let (i0, j0) = choose|i: int, j: int|
                            #[trigger] item_with_bad_label_at(rest, i, j) && sched_fold(
                                acc2,
                                rest,
                            )->Err_0 == node_text(children_of(rest[i])[j]);
                        assert(rest[i0] == children[i0 + 1]);
                        assert(item_with_bad_label_at(children, i0 + 1, j0));
                    },
                }
            },
            _ => {
                lemma_sched_fold_err_label(acc, rest);
                let (i0, j0) = choose|i: int, j: int|
                    #[trigger] item_with_bad_label_at(rest, i, j) && sched_fold(acc, rest)->Err_0
                        == node_text(children_of(rest[i])[j]);
                assert(rest[i0] == children[i0 + 1]);
                assert(item_with_bad_label_at(children, i0 + 1, j0));
            },
        }
    }
}

/// A bad label in any item makes the schedule walk fail, whatever the state.
proof fn lemma_sched_fold_bad_label_errs(acc: SchedAcc, children: Seq<NodeV>, i: int, j: int)
    requires
        item_with_bad_label_at(children, i, j),
    ensures
        sched_fold(acc, children) is Err,
    decreases children.len(),
{
    let rest = children.drop_first();
    match children[0] {
        NodeV::Item { children: inner } => {
            match item_fold(acc, inner) {
                Err(_) => {},
                Ok(acc2) => {
                    if i == 0 {
                        assert(children_of(children[0]) == inner);
                        lemma_item_fold_bad_label_errs(acc, inner, j);
                    } else {
                        assert(rest[i - 1] == children[i]);
                        lemma_sched_fold_bad_label_errs(acc2, rest, i - 1, j);
                    }
                },
            }
        },
        _ => {
            assert(i != 0);
            assert(rest[i - 1] == children[i]);
            lemma_sched_fold_bad_label_errs(acc, rest, i - 1, j);
        },
    }
}

/// A label mismatch, and only a label mismatch, is fatal: the schedule parse
/// fails exactly when some item holds a label paragraph naming neither
/// sub-section, and the error then carries such a label's text. An
/// unparsable event never fails the parse; it is dropped where it stands
/// (`lemma_unparsable_event_dropped`).
pub proof fn lemma_label_mismatch_fatal(n: NodeV)
    ensures
        parse_schedule_spec(n) is Err <==> exists|i: int, j: int|
            #[trigger] item_with_bad_label_at(children_of(n), i, j),
        parse_schedule_spec(n) is Err ==> exists|i: int, j: int|
            #[trigger] item_with_bad_label_at(children_of(n), i, j) && parse_schedule_spec(
                n,
            )->Err_0 == node_text(children_of(children_of(n)[i])[j]),
{
    let acc0 = SchedAcc {
        sec: ScheduleSection::Planned,
        planned: Seq::<EventV>::empty(),
        actual: Seq::<EventV>::empty(),
    };
    let kids = children_of(n);
    lemma_sched_fold_err_label(acc0, kids);
    if sched_fold(acc0, kids) is Err {
        let (i0, j0) = choose|i: int, j: int|
            #[trigger] item_with_bad_label_at(kids, i, j) && sched_fold(acc0, kids)->Err_0
                == node_text(children_of(kids[i])[j]);
        assert(item_with_bad_label_at(kids, i0, j0) && parse_schedule_spec(n)->Err_0 == node_text(
            children_of(kids[i0])[j0],
        ));
    }
    if exists|i: int, j: int| #[trigger] item_with_bad_label_at(kids, i, j) {
        let (i0, j0) = choose|i: int, j: int| #[trigger] item_with_bad_label_at(kids, i, j);
        lemma_sched_fold_bad_label_errs(acc0, kids, i0, j0);
    }
}

/// A well-formed event holds a valid time of day.
pub open spec fn events_wf(s: Seq<EventV>) -> bool {
    forall|i: int| 0 <= i < s.len() ==> (#[trigger] s[i]).start.wf()
}

/// A well-formed schedule holds only valid times of day.
pub open spec fn sched_wf(s: SchedV) -> bool {
    events_wf(s.planned) && events_wf(s.actual)
}

/// Every event the item parser yields holds a valid time.
proof fn lemma_event_of_item_wf(n: NodeV)
    ensures
        event_of_item(n) is Some ==> event_of_item(n)->Some_0.start.wf(),
{
    match n {
        NodeV::Item { .. } => {
            let pieces = keep_nonempty(split_char(node_text(n), '\t'));
            if pieces.len() >= 2 {
                let s = pieces[0];
                if s.len() == 4 && crate::text::all_digits(s) {
                    assert forall|i: int| 0 <= i < 2 implies crate::text::is_digit(
                        #[trigger] s.subrange(0, 2)[i],
                    ) by {
                        assert(crate::text::is_digit(s[i]));
                    }
                    assert forall|i: int| 0 <= i < 2 implies crate::text::is_digit(
                        #[trigger] s.subrange(2, 4)[i],
                    ) by {
                        assert(crate::text::is_digit(s[i + 2]));
                    }
                    crate::text::lemma_num_val_bound(s.subrange(0, 2));
                    crate::text::lemma_num_val_bound(s.subrange(2, 4));
                }
            }
        },
        _ => {},
    }
}

/// Every event a nested list yields holds a valid time.
proof fn lemma_events_of_items_wf(children: Seq<NodeV>)
    ensures
        events_wf(events_of_items(children)),
    decreases children.len(),
{
    if children.len() > 0 {
        lemma_events_of_items_wf(children.drop_first());
        lemma_event_of_item_wf(children[0]);
    }
}

/// `item_fold` keeps the events well formed.
proof fn lemma_item_fold_wf(acc: SchedAcc, children: Seq<NodeV>)
    requires
        events_wf(acc.planned),
        events_wf(acc.actual),
    ensures
        item_fold(acc, children) is Ok ==> {
            &&& events_wf(item_fold(acc, children)->Ok_0.planned)
            &&& events_wf(item_fold(acc, children)->Ok_0.actual)
        },
    decreases children.len(),
{
    if children.len() > 0 {
        match children[0] {
            NodeV::Paragraph { .. } => {
                match label_of(node_text(children[0])) {
                    Some(sec) => {
                        lemma_item_fold_wf(
                            SchedAcc { sec, planned: acc.planned, actual: acc.actual },
                            children.drop_first(),
                        );
                    },
                    None => {},
                }
            },
            NodeV::List { children: inner } => {
                lemma_events_of_items_wf(inner);
                let acc2 = add_events(acc, events_of_items(inner));
                assert(events_wf(acc2.planned) && events_wf(acc2.actual));
                lemma_item_fold_wf(acc2, children.drop_first());
            },
            _ => {
                lemma_item_fold_wf(acc, children.drop_first());
            },
        }
    }
}

/// `sched_fold` keeps the events well formed.
proof fn lemma_sched_fold_wf(acc: SchedAcc, children: Seq<NodeV>)
    requires
        events_wf(acc.planned),
        events_wf(acc.actual),
    ensures
        sched_fold(acc, children) is Ok ==> {
            &&& events_wf(sched_fold(acc, children)->Ok_0.planned)
            &&& events_wf(sched_fold(acc, children)->Ok_0.actual)
        },
    decreases children.len(),
{
    if children.len() > 0 {
        match children[0] {
            NodeV::Item { children: inner } => {
                lemma_item_fold_wf(acc, inner);
                match item_fold(acc, inner) {
                    Ok(acc2) => {
                        lemma_sched_fold_wf(acc2, children.drop_first());
                    },
                    Err(_) => {},
                }
            },
            _ => {
                lemma_sched_fold_wf(acc, children.drop_first());
            },
        }
    }
}

/// A schedule the parser accepts holds only valid times of day.
pub proof fn lemma_parse_schedule_wf(n: NodeV)
    ensures
        parse_schedule_spec(n) is Ok ==> sched_wf(parse_schedule_spec(n)->Ok_0),
{
    let acc0 = SchedAcc {
        sec: ScheduleSection::Planned,
        planned: Seq::<EventV>::empty(),
        actual: Seq::<EventV>::empty(),
    };
    lemma_sched_fold_wf(acc0, children_of(n));
}

/// Parses one event item; `None` drops it, as the spec of the text says.
fn parse_event(node: &Node) -> (r: Option<Event>)
    ensures
        match r {
            Some(e) => event_of_item(node@) == Some(e@),
            None => event_of_item(node@) is None,
        },
{
    match node {
        Node::Item { .. } => {
            let text = get_node_text(node);
            let raw = split_str(text.as_str(), '\t');
            let pieces = filter_nonempty(&raw);
            proof {
                assert(strs_view(pieces@).len() == pieces@.len());
            }
            if pieces.len() < 2 {
                return None;
            }
            proof {
                assert(strs_view(pieces@)[0] == pieces@[0]@);
                assert(strs_view(pieces@)[1] == pieces@[1]@);
            }
            match Time::parse_hhmm(pieces[0].as_str()) {
                Some(start) => {
                    let description = pieces[1].clone();
                    Some(Event { description, start })
                },
                None => None,
            }
        },
        _ => None,
    }
}

/// Parses a nested list's items as events, appending those that parse.
fn parse_event_list(children: &Vec<Node>, out: &mut Vec<Event>)
    ensures
        events_view(final(out)@) == events_view(old(out)@) + events_of_items(
            nodes_view(children@),
        ),
{
    let ghost all = nodes_view(children@);
    let n = children.len();
    proof {
        lemma_nodes_view(children@);
        assert(all.subrange(0, n as int) =~= all);
        assert(events_view(out@) + events_of_items(all.subrange(0, n as int)) =~= events_view(
            out@,
        ) + events_of_items(all));
    }
    let mut i: usize = 0;
    while i < n
        invariant
            0 <= i <= n,
            n == children@.len(),
            all == nodes_view(children@),
            all.len() == n,
            forall|k: int| 0 <= k < n ==> all[k] == node_view(#[trigger] children@[k]),
            events_view(out@) + events_of_items(all.subrange(i as int, n as int)) == events_view(
                old(out)@,
            ) + events_of_items(all),
        decreases n - i,
    {
        let ghost sfx = all.subrange(i as int, n as int);
        proof {
            assert(sfx[0] == all[i as int]);
            assert(sfx.drop_first() =~= all.subrange(i + 1, n as int));
        }
        match parse_event(&children[i]) {
            Some(event) => {
                proof {
                    assert(events_view(out@.push(event)) =~= events_view(out@).push(event@));
                    assert(events_view(out@).push(event@) + events_of_items(sfx.drop_first())
                        =~= events_view(out@) + events_of_items(sfx));
                }
                out.push(event);
            },
            None => {
                proof {
                    assert(events_of_items(sfx) == events_of_items(sfx.drop_first()));
                }
            },
        }
        i = i + 1;
    }
    proof {
        assert(all.subrange(n as int, n as int) =~= Seq::<NodeV>::empty());
        assert(events_view(out@) + Seq::<EventV>::empty() =~= events_view(out@));
    }
}

/// Walks one top-level item's children; `Some` carries the offending label
/// text of a fatal mismatch.
fn parse_schedule_item(
    children: &Vec<Node>,
    sec: &mut ScheduleSection,
    planned: &mut Vec<Event>,
    actual: &mut Vec<Event>,
) -> (r: Option<String>)
    ensures
        match r {
            None => item_fold(
                SchedAcc {
                    sec: *old(sec),
                    planned: events_view(old(planned)@),
                    actual: events_view(old(actual)@),
                },
                nodes_view(children@),
            ) == Ok::<SchedAcc, Seq<char>>(
                SchedAcc {
                    sec: *final(sec),
                    planned: events_view(final(planned)@),
                    actual: events_view(final(actual)@),
                },
            ),
            Some(t) => item_fold(
                SchedAcc {
                    sec: *old(sec),
                    planned: events_view(old(planned)@),
                    actual: events_view(old(actual)@),
                },
                nodes_view(children@),
            ) == Err::<SchedAcc, Seq<char>>(t@),
        },
{
    let ghost all = nodes_view(children@);
    let ghost acc0 = SchedAcc {
        sec: *sec,
        planned: events_view(planned@),
        actual: events_view(actual@),
    };
    let n = children.len();
    proof {
        lemma_nodes_view(children@);
        assert(all.subrange(0, n as int) =~= all);
    }
    let mut i: usize = 0;
    while i < n
        invariant
            0 <= i <= n,
            n == children@.len(),
            all == nodes_view(children@),
            all.len() == n,
            forall|k: int| 0 <= k < n ==> all[k] == node_view(#[trigger] children@[k]),
            item_fold(acc0, all) == item_fold(
                SchedAcc {
                    sec: *sec,
                    planned: events_view(planned@),
                    actual: events_view(actual@),
                },
                all.subrange(i as int, n as int),
            ),
            acc0 == (SchedAcc {
                sec: *old(sec),
                planned: events_view(old(planned)@),
                actual: events_view(old(actual)@),
            }),
        decreases n - i,
    {
        let ghost sfx = all.subrange(i as int, n as int);
        let ghost acc = SchedAcc {
            sec: *sec,
            planned: events_view(planned@),
            actual: events_view(actual@),
        };
        proof {
            assert(sfx[0] == all[i as int]);
            assert(sfx.drop_first() =~= all.subrange(i + 1, n as int));
        }
        let child = &children[i];
        match child {
            Node::Paragraph { .. } => {
                let text = get_node_text(child);
                let trimmed = trim(text.as_str());
                if eq_lower(trimmed.as_str(), "planned") {
                    *sec = ScheduleSection::Planned;
                    proof {
                        assert(label_of(node_text(sfx[0])) == Some(ScheduleSection::Planned));
                        assert(SchedAcc {
                            sec: *sec,
                            planned: events_view(planned@),
                            actual: events_view(actual@),
                        } =~= (SchedAcc {
                            sec: ScheduleSection::Planned,
                            planned: acc.planned,
                            actual: acc.actual,
                        }));
                    }
                } else if eq_lower(trimmed.as_str(), "actual") {
                    *sec = ScheduleSection::Actual;
                    proof {
                        assert(label_of(node_text(sfx[0])) == Some(ScheduleSection::Actual));
                        assert(SchedAcc {
                            sec: *sec,
                            planned: events_view(planned@),
                            actual: events_view(actual@),
                        } =~= (SchedAcc {
                            sec: ScheduleSection::Actual,
                            planned: acc.planned,
                            actual: acc.actual,
                        }));
                    }
                } else {
                    proof {
                        assert(label_of(node_text(sfx[0])) is None);
                        assert(item_fold(acc, sfx) == Err::<SchedAcc, Seq<char>>(
                            node_text(sfx[0]),
                        ));
                    }
                    return Some(text);
                }
            },
            Node::List { children: inner } => {
                match sec {
                    ScheduleSection::Planned => {
                        parse_event_list(inner, planned);
                    },
                    ScheduleSection::Actual => {
                        parse_event_list(inner, actual);
                    },
                }
                proof {
                    assert(SchedAcc {
                        sec: *sec,
                        planned: events_view(planned@),
                        actual: events_view(actual@),
                    } =~= add_events(acc, events_of_items(nodes_view(inner@))));
                }
            },
            _ => {
                proof {
                    assert(item_fold(acc, sfx) == item_fold(acc, sfx.drop_first()));
                }
            },
        }
        i = i + 1;
    }
    proof {
        assert(all.subrange(n as int, n as int) =~= Seq::<NodeV>::empty());
    }
    None
}

/// Parses the schedule list: two sub-sections of events, accumulated under
/// the labels "Planned" and "Actual"; a label that is neither is fatal and
/// carries the offending text; an unparsable event is dropped silently.
pub fn parse_schedule(node: &Node) -> (r: Result<Schedule, PlanError>)
    ensures
        match r {
            Ok(s) => parse_schedule_spec(node@) == Ok::<SchedV, Seq<char>>(s@),
            Err(e) => {
                &&& parse_schedule_spec(node@) is Err
                &&& e@ == (PlanErrorV::ScheduleLabelMismatch {
                    text: parse_schedule_spec(node@)->Err_0,
                })
            },
        },
{
    let mut planned: Vec<Event> = Vec::new();
    let mut actual: Vec<Event> = Vec::new();
    let mut sec = ScheduleSection::Planned;
    let ghost acc0 = SchedAcc {
        sec: ScheduleSection::Planned,
        planned: Seq::<EventV>::empty(),
        actual: Seq::<EventV>::empty(),
    };
    proof {
        assert(SchedAcc { sec: sec, planned: events_view(planned@), actual: events_view(actual@) }
            =~= acc0);
    }
    match node_children(node) {
        None => {
            let s = Schedule { planned, actual };
            proof {
                assert(s@ =~= (SchedV { planned: acc0.planned, actual: acc0.actual }));
            }
            Ok(s)
        },
        Some(children) => {
            let ghost all = children_of(node@);
            let n = children.len();
            proof {
                lemma_nodes_view(children@);
                assert(all.subrange(0, n as int) =~= all);
            }
            let mut i: usize = 0;
            while i < n
                invariant
                    0 <= i <= n,
                    n == children@.len(),
                    all == nodes_view(children@),
                    all == children_of(node@),
                    all.len() == n,
                    forall|k: int| 0 <= k < n ==> all[k] == node_view(#[trigger] children@[k]),
                    acc0 == (SchedAcc {
                        sec: ScheduleSection::Planned,
                        planned: Seq::<EventV>::empty(),
                        actual: Seq::<EventV>::empty(),
                    }),
                    sched_fold(acc0, all) == sched_fold(
                        SchedAcc {
                            sec: sec,
                            planned: events_view(planned@),
                            actual: events_view(actual@),
                        },
                        all.subrange(i as int, n as int),
                    ),
                decreases n - i,
            {
                let ghost sfx = all.subrange(i as int, n as int);
                let ghost acc = SchedAcc {
                    sec: sec,
                    planned: events_view(planned@),
                    actual: events_view(actual@),
                };
                proof {
                    assert(sfx[0] == all[i as int]);
                    assert(sfx.drop_first() =~= all.subrange(i + 1, n as int));
                }
                let child = &children[i];
                match child {
                    Node::Item { children: inner } => {
                        let bad = parse_schedule_item(inner, &mut sec, &mut planned, &mut actual);
                        match bad {
                            Some(text) => {
                                proof {
                                    assert(item_fold(acc, nodes_view(inner@)) == Err::<
                                        SchedAcc,
                                        Seq<char>,
                                    >(text@));
                                    assert(sched_fold(acc0, all) == Err::<SchedAcc, Seq<char>>(
                                        text@,
                                    ));
                                    assert(parse_schedule_spec(node@) == Err::<SchedV, Seq<char>>(
                                        text@,
                                    ));
                                    assert((PlanError::ScheduleLabelMismatch { text: text })@
                                        == (PlanErrorV::ScheduleLabelMismatch { text: text@ }));
                                }
                                return Err(PlanError::ScheduleLabelMismatch { text });
                            },
                            None => {
                                proof {
                                    assert(sched_fold(acc, sfx) == sched_fold(
                                        SchedAcc {
                                            sec: sec,
                                            planned: events_view(planned@),
                                            actual: events_view(actual@),
                                        },
                                        sfx.drop_first(),
                                    ));
                                }
                            },
                        }
                    },
                    _ => {
                        proof {
                            assert(sched_fold(acc, sfx) == sched_fold(acc, sfx.drop_first()));
                        }
                    },
                }
                i = i + 1;
            }
            proof {
                assert(all.subrange(n as int, n as int) =~= Seq::<NodeV>::empty());
            }
            let s = Schedule { planned, actual };
            proof {
                assert(s@ =~= (SchedV {
                    planned: events_view(planned@),
                    actual: events_view(actual@),
                }));
            }
            Ok(s)
        },
    }
}

} // verus!
