//! A diagram of the schedule, built from the run and sleep events. The events are grouped by task
//! and written as JSON.

use crate::digits::{fixed_point, pow10};
use crate::double::{fixed, Double};
use crate::grammar::lemma_fixed_point_number;
use crate::json::{
    escaped, is_array_of, is_json, is_json_number, is_json_string, is_object_of, is_ordinary, joined,
    law_ordinary_text_stays, law_quoted_text_is_json, lemma_joined_push, push_escaped, quoted,
    spaces, Member, Padded,
};
use crate::notation::{is_decimal_near, law_fixed_notation};
use crate::rounding::half_even;
use crate::text::to_chars;
use vstd::prelude::*;

verus! {

/// What a task began to do.
#[derive(Clone, Copy, PartialEq, Eq, Structural)]
pub enum EventType {
    Running,
    Sleeping,
}

/// The name of an event in the diagram and in the log.
pub open spec fn event_name(event_type: EventType) -> Seq<char> {
    match event_type {
        EventType::Running => "running"@,
        EventType::Sleeping => "sleeping"@,
    }
}

impl EventType {
    /// The name of the event in the diagram and in the log.
    pub fn as_str(&self) -> (name: &'static str)
        ensures
            name@ == event_name(*self),
    {
        match self {
            EventType::Running => "running",
            EventType::Sleeping => "sleeping",
        }
    }
}

struct Event {
    time: Double,
    task: String,
    event_type: EventType,
    duration: Double,
}

/// An event of the diagram: when it began and how long it takes, both in seconds.
pub struct EventView {
    pub time: Double,
    pub task: Seq<char>,
    pub event_type: EventType,
    pub duration: Double,
}

impl View for Event {
    type V = EventView;

    closed spec fn view(&self) -> EventView {
        EventView {
            time: self.time,
            task: self.task@,
            event_type: self.event_type,
            duration: self.duration,
        }
    }
}

/// The events of a schedule, in the order in which they were recorded.
pub struct DiagramHelper {
    events: Vec<Event>,
}

impl View for DiagramHelper {
    type V = Seq<EventView>;

    closed spec fn view(&self) -> Seq<EventView> {
        self.events@.map_values(|e: Event| e@)
    }
}

/// An event as JSON.
pub open spec fn event_json(e: EventView) -> Seq<char> {
    "{ \"action\": \""@ + event_name(e.event_type) + "\", \"start\": "@ + fixed(e.time, 6)
        + ", \"duration\": "@ + fixed(e.duration, 6) + " }"@
}

/// The events of one task, in their order.
pub open spec fn events_of(events: Seq<EventView>, task: Seq<char>) -> Seq<EventView> {
    events.filter(|e: EventView| e.task == task)
}

/// The track of one task as JSON.
pub open spec fn track_json(events: Seq<EventView>, task: Seq<char>) -> Seq<char> {
    "{ \"task\": \""@ + escaped(task) + "\", \"events\": ["@ + joined(
        events_of(events, task).map_values(|e: EventView| event_json(e)),
    ) + "] }"@
}

/// `a` stands before `b` in the order of strings: by the first character in which they differ,
/// and a string behind its own beginnings.
pub open spec fn precedes(a: Seq<char>, b: Seq<char>) -> bool
    decreases a.len(),
{
    if b.len() == 0 {
        false
    } else if a.len() == 0 {
        true
    } else {
        a[0] < b[0] || (a[0] == b[0] && precedes(a.drop_first(), b.drop_first()))
    }
}

/// The task has an event.
pub open spec fn occurs(events: Seq<EventView>, task: Seq<char>) -> bool {
    exists|i: int| 0 <= i < events.len() && (#[trigger] events[i]).task == task
}

/// `tasks` are the tasks of the events, each of them once and in the order of strings.
pub open spec fn is_task_list(events: Seq<EventView>, tasks: Seq<Seq<char>>) -> bool {
    &&& forall|i: int, j: int| 0 <= i < j < tasks.len() ==> precedes(tasks[i], tasks[j])
    &&& forall|i: int|
        0 <= i < events.len() ==> tasks.contains((#[trigger] events[i]).task)
    &&& forall|k: int| 0 <= k < tasks.len() ==> occurs(events, #[trigger] tasks[k])
}

/// The tasks of the events in the order of strings.
pub open spec fn task_list(events: Seq<EventView>) -> Seq<Seq<char>> {
    choose|tasks: Seq<Seq<char>>| is_task_list(events, tasks)
}

/// The diagram as JSON, for times that are finite: one track for each task, in the order of their
/// names.
pub open spec fn diagram_json(events: Seq<EventView>) -> Seq<char> {
    seq!['['] + joined(
        task_list(events).map_values(|task: Seq<char>| track_json(events, task)),
    ) + seq![']']
}

pub proof fn lemma_precedes_irreflexive(a: Seq<char>)
    ensures
        !precedes(a, a),
    decreases a.len(),
{
    if a.len() > 0 {
        lemma_precedes_irreflexive(a.drop_first());
    }
}

pub proof fn lemma_precedes_transitive(a: Seq<char>, b: Seq<char>, c: Seq<char>)
    requires
        precedes(a, b),
        precedes(b, c),
    ensures
        precedes(a, c),
    decreases a.len(),
{
    if a.len() > 0 && a[0] == b[0] && b[0] == c[0] {
        lemma_precedes_transitive(a.drop_first(), b.drop_first(), c.drop_first());
    }
}

pub proof fn lemma_precedes_total(a: Seq<char>, b: Seq<char>)
    ensures
        precedes(a, b) || precedes(b, a) || a == b,
    decreases a.len(),
{
    if a.len() > 0 && b.len() > 0 {
        if a[0] == b[0] {
            lemma_precedes_total(a.drop_first(), b.drop_first());
            if a.drop_first() == b.drop_first() {
                assert(a =~= seq![a[0]] + a.drop_first());
                assert(b =~= seq![b[0]] + b.drop_first());
            }
        }
    } else if a.len() == 0 && b.len() == 0 {
        assert(a =~= b);
    }
}

/// Each element stands before all that follow it.
spec fn is_ascending(s: Seq<Seq<char>>) -> bool {
    forall|i: int, j: int| 0 <= i < j < s.len() ==> precedes(s[i], s[j])
}

/// Two ascending sequences with the same elements are equal.
proof fn lemma_ascending_unique(s: Seq<Seq<char>>, t: Seq<Seq<char>>)
    requires
        is_ascending(s),
        is_ascending(t),
        forall|x: Seq<char>| s.contains(x) <==> t.contains(x),
    ensures
        s == t,
    decreases s.len(),
{
    if s.len() == 0 {
        if t.len() > 0 {
            assert(t.contains(t[0]));
            assert(s.contains(t[0]));
        }
        assert(s =~= t);
    } else {
        assert(s.contains(s[0]));
        assert(t.contains(s[0]));
        let k = choose|k: int| 0 <= k < t.len() && t[k] == s[0];
        assert(t.contains(t[0]));
        assert(s.contains(t[0]));
        let j = choose|j: int| 0 <= j < s.len() && s[j] == t[0];
        if k > 0 {
            assert(precedes(t[0], s[0]));
            lemma_precedes_irreflexive(t[0]);
            if j > 0 {
                lemma_precedes_transitive(t[0], s[0], t[0]);
            }
        }
        assert(s[0] == t[0]);
        let u = s.drop_first();
        let v = t.drop_first();
        assert forall|i: int, j: int| 0 <= i < j < u.len() implies precedes(u[i], u[j]) by {
            assert(precedes(s[i + 1], s[j + 1]));
        }
        assert forall|i: int, j: int| 0 <= i < j < v.len() implies precedes(v[i], v[j]) by {
            assert(precedes(t[i + 1], t[j + 1]));
        }
        assert forall|x: Seq<char>| u.contains(x) <==> v.contains(x) by {
            lemma_ascending_rest(s, x);
            lemma_ascending_rest(t, x);
        }
        lemma_ascending_unique(u, v);
        assert(s =~= seq![s[0]] + u);
        assert(t =~= seq![t[0]] + v);
    }
}

proof fn lemma_ascending_rest(s: Seq<Seq<char>>, x: Seq<char>)
    requires
        s.len() > 0,
        is_ascending(s),
    ensures
        s.drop_first().contains(x) <==> s.contains(x) && x != s[0],
{
    let u = s.drop_first();
    if u.contains(x) {
        let i = choose|i: int| 0 <= i < u.len() && u[i] == x;
        assert(s[i + 1] == x);
        assert(precedes(s[0], s[i + 1]));
        lemma_precedes_irreflexive(x);
    }
    if s.contains(x) && x != s[0] {
        let i = choose|i: int| 0 <= i < s.len() && s[i] == x;
        assert(u[i - 1] == x);
    }
}

proof fn lemma_task_list_contains(events: Seq<EventView>, tasks: Seq<Seq<char>>, x: Seq<char>)
    requires
        is_task_list(events, tasks),
    ensures
        tasks.contains(x) <==> occurs(events, x),
{
    if tasks.contains(x) {
        let k = choose|k: int| 0 <= k < tasks.len() && tasks[k] == x;
        assert(tasks[k] == x);
    }
}

/// A schedule has one list of tasks only.
pub proof fn lemma_task_list_unique(events: Seq<EventView>, tasks: Seq<Seq<char>>)
    requires
        is_task_list(events, tasks),
    ensures
        tasks == task_list(events),
{
    let other = task_list(events);
    assert forall|x: Seq<char>| tasks.contains(x) <==> other.contains(x) by {
        lemma_task_list_contains(events, tasks, x);
        lemma_task_list_contains(events, other, x);
    }
    lemma_ascending_unique(tasks, other);
}

enum Order {
    Before,
    Same,
    After,
}

/// How two strings stand to each other.
fn compare(a: &Vec<char>, b: &Vec<char>) -> (order: Order)
    ensures
        match order {
            Order::Before => precedes(a@, b@),
            Order::Same => a@ == b@,
            Order::After => precedes(b@, a@),
        },
{
    let mut i: usize = 0;
    proof {
        assert(a@.skip(0) =~= a@);
        assert(b@.skip(0) =~= b@);
    }
    while i < a.len() && i < b.len() && a[i] == b[i]
        invariant
            i <= a.len(),
            i <= b.len(),
            a@.take(i as int) == b@.take(i as int),
            precedes(a@, b@) == precedes(a@.skip(i as int), b@.skip(i as int)),
            precedes(b@, a@) == precedes(b@.skip(i as int), a@.skip(i as int)),
        decreases a.len() - i,
    {
        proof {
            assert(a@.skip(i as int).drop_first() =~= a@.skip(i + 1));
            assert(b@.skip(i as int).drop_first() =~= b@.skip(i + 1));
            assert(a@.take(i + 1) =~= a@.take(i as int).push(a@[i as int]));
            assert(b@.take(i + 1) =~= b@.take(i as int).push(b@[i as int]));
        }
        i += 1;
    }
    if i == a.len() {
        if i == b.len() {
            proof {
                assert(a@ =~= a@.take(i as int));
                assert(b@ =~= b@.take(i as int));
            }
            Order::Same
        } else {
            Order::Before
        }
    } else if i == b.len() {
        Order::After
    } else if a[i] < b[i] {
        Order::Before
    } else {
        Order::After
    }
}

spec fn views(tasks: Seq<Vec<char>>) -> Seq<Seq<char>> {
    tasks.map_values(|t: Vec<char>| t@)
}

/// Adds a task to the list, at its place.
fn insert_task(tasks: &mut Vec<Vec<char>>, task: Vec<char>)
    requires
        is_ascending(views(old(tasks)@)),
    ensures
        is_ascending(views(final(tasks)@)),
        forall|x: Seq<char>|
            views(final(tasks)@).contains(x) <==> views(old(tasks)@).contains(x) || x == task@,
{
    let ghost before = views(tasks@);
    let ghost t = task@;
    let mut p: usize = 0;
    while p < tasks.len()
        invariant
            p <= tasks.len(),
            before == views(tasks@),
            t == task@,
            is_ascending(before),
            tasks@ == old(tasks)@,
            forall|k: int| 0 <= k < p ==> precedes(#[trigger] before[k], t),
        ensures
            p <= tasks.len(),
            before == views(tasks@),
            tasks@ == old(tasks)@,
            forall|k: int| 0 <= k < p ==> precedes(#[trigger] before[k], t),
            p < tasks.len() ==> precedes(t, before[p as int]),
        decreases tasks.len() - p,
    {
        assert(before[p as int] == tasks@[p as int]@);
        match compare(&tasks[p], &task) {
            Order::Before => {
                p += 1;
            },
            Order::Same => {
                proof {
                    assert(before[p as int] == t);
                    assert(before.contains(t));
                }
                return ;
            },
            Order::After => {
                break ;
            },
        }
    }
    tasks.insert(p, task);
    proof {
        let after = views(tasks@);
        assert(after =~= before.insert(p as int, t));
        assert forall|i: int, j: int| 0 <= i < j < after.len() implies precedes(
            after[i],
            after[j],
        ) by {
            if i == p && j > p + 1 {
                assert(precedes(before[p as int], before[j - 1]));
                lemma_precedes_transitive(t, before[p as int], before[j - 1]);
            }
        }
        assert forall|x: Seq<char>| after.contains(x) <==> before.contains(x) || x == t by {
            if before.contains(x) {
                let k = choose|k: int| 0 <= k < before.len() && before[k] == x;
                if k < p {
                    assert(after[k] == x);
                } else {
                    assert(after[k + 1] == x);
                }
            }
            assert(after[p as int] == t);
            if after.contains(x) && x != t {
                let k = choose|k: int| 0 <= k < after.len() && after[k] == x;
                if k < p {
                    assert(before[k] == x);
                } else {
                    assert(before[k - 1] == x);
                }
            }
        }
    }
}

/// The event as JSON.
fn single_event_json(event: &Event) -> (json: String)
    requires
        event@.time.wf(),
        event@.duration.wf(),
    ensures
        json@ == event_json(event@),
{
    let mut json = String::from_str("{ \"action\": \"");
    json.append(event.event_type.as_str());
    json.append("\", \"start\": ");
    json.append(event.time.to_fixed(6).as_str());
    json.append(", \"duration\": ");
    json.append(event.duration.to_fixed(6).as_str());
    json.append(" }");
    json
}

spec fn event_jsons(events: Seq<EventView>, task: Seq<char>) -> Seq<Seq<char>> {
    events_of(events, task).map_values(|e: EventView| event_json(e))
}

/// A recorded event comes last in the track of its task, and leaves all other tracks as they are.
pub proof fn law_event_joins_its_track(events: Seq<EventView>, e: EventView, task: Seq<char>)
    ensures
        events_of(events.push(e), task) == if e.task == task {
            events_of(events, task).push(e)
        } else {
            events_of(events, task)
        },
{
    reveal(Seq::filter);
    assert(events.push(e).drop_last() =~= events);
}

proof fn lemma_event_jsons_push(events: Seq<EventView>, e: EventView, task: Seq<char>)
    ensures
        event_jsons(events.push(e), task) == if e.task == task {
            event_jsons(events, task).push(event_json(e))
        } else {
            event_jsons(events, task)
        },
{
    law_event_joins_its_track(events, e, task);
    if e.task == task {
        assert(event_jsons(events.push(e), task) =~= event_jsons(events, task).push(
            event_json(e),
        ));
    }
}

/// The place of a task in an ascending list that does not hold it.
proof fn lemma_place(s: Seq<Seq<char>>, t: Seq<char>) -> (p: int)
    requires
        is_ascending(s),
        !s.contains(t),
    ensures
        0 <= p <= s.len(),
        forall|k: int| 0 <= k < p ==> precedes(#[trigger] s[k], t),
        forall|k: int| p <= k < s.len() ==> precedes(t, #[trigger] s[k]),
    decreases s.len(),
{
    if s.len() == 0 {
        0
    } else {
        let last = s.last();
        assert(s[s.len() - 1] == last);
        lemma_precedes_total(last, t);
        if precedes(last, t) {
            assert forall|k: int| 0 <= k < s.len() implies precedes(#[trigger] s[k], t) by {
                if k < s.len() - 1 {
                    lemma_precedes_transitive(s[k], last, t);
                }
            }
            s.len() as int
        } else {
            let u = s.drop_last();
            assert forall|i: int, j: int| 0 <= i < j < u.len() implies precedes(u[i], u[j]) by {
                assert(precedes(s[i], s[j]));
            }
            assert(!u.contains(t)) by {
                if u.contains(t) {
                    let k = choose|k: int| 0 <= k < u.len() && u[k] == t;
                    assert(s[k] == t);
                }
            }
            let p = lemma_place(u, t);
            assert forall|k: int| 0 <= k < p implies precedes(#[trigger] s[k], t) by {
                assert(s[k] == u[k]);
            }
            assert forall|k: int| p <= k < s.len() implies precedes(t, #[trigger] s[k]) by {
                if k < u.len() {
                    assert(s[k] == u[k]);
                }
            }
            p
        }
    }
}

/// The list of tasks holds each task that has an event, once, in the order of strings; and no
/// other task.
pub proof fn law_tasks_are_listed_once_in_order(events: Seq<EventView>)
    ensures
        is_task_list(events, task_list(events)),
    decreases events.len(),
{
    if events.len() == 0 {
        assert(is_task_list(events, Seq::<Seq<char>>::empty()));
    } else {
        let before = events.drop_last();
        let e = events.last();
        let list = task_list(before);
        law_tasks_are_listed_once_in_order(before);
        assert(events[before.len() as int] == e);
        assert forall|t: Seq<char>| occurs(before, t) implies occurs(events, t) by {
            let i = choose|i: int| 0 <= i < before.len() && (#[trigger] before[i]).task == t;
            assert(events[i].task == t);
        }
        if list.contains(e.task) {
            assert forall|i: int| 0 <= i < events.len() implies list.contains(
                (#[trigger] events[i]).task,
            ) by {
                if i < before.len() {
                    assert(before[i] == events[i]);
                }
            }
            assert(is_task_list(events, list));
        } else {
            let p = lemma_place(list, e.task);
            let next = list.insert(p, e.task);
            assert(next[p] == e.task);
            assert forall|i: int| 0 <= i < events.len() implies next.contains(
                (#[trigger] events[i]).task,
            ) by {
                if i < before.len() {
                    assert(before[i] == events[i]);
                    let t = events[i].task;
                    assert(list.contains(t));
                    let k = choose|k: int| 0 <= k < list.len() && list[k] == t;
                    assert(next[if k < p { k } else { k + 1 }] == t);
                }
            }
            assert forall|k: int| 0 <= k < next.len() implies occurs(
                events,
                #[trigger] next[k],
            ) by {
                if k < p {
                    assert(next[k] == list[k]);
                } else if k > p {
                    assert(next[k] == list[k - 1]);
                } else {
                    assert(events[before.len() as int].task == next[k]);
                }
            }
            assert(is_task_list(events, next));
        }
    }
}

/// A task has an event if and only if its track is not empty.
proof fn lemma_occurs_in_track(events: Seq<EventView>, task: Seq<char>)
    ensures
        occurs(events, task) <==> events_of(events, task).len() > 0,
    decreases events.len(),
{
    if events.len() == 0 {
        reveal(Seq::filter);
    } else {
        let before = events.drop_last();
        let e = events.last();
        lemma_occurs_in_track(before, task);
        law_event_joins_its_track(before, e, task);
        assert(before.push(e) =~= events);
        assert(events[before.len() as int] == e);
        if occurs(before, task) {
            let i = choose|i: int| 0 <= i < before.len() && (#[trigger] before[i]).task == task;
            assert(events[i].task == task);
        }
        if occurs(events, task) && e.task != task {
            let i = choose|i: int| 0 <= i < events.len() && (#[trigger] events[i]).task == task;
            assert(before[i].task == task);
        }
    }
}

/// The diagram depends on the events of each task in their order, and not on how the events of
/// different tasks come in between each other.
pub proof fn law_diagram_is_stable(a: Seq<EventView>, b: Seq<EventView>)
    requires
        forall|task: Seq<char>| events_of(a, task) == #[trigger] events_of(b, task),
    ensures
        diagram_json(a) == diagram_json(b),
{
    let s = task_list(a);
    let t = task_list(b);
    law_tasks_are_listed_once_in_order(a);
    law_tasks_are_listed_once_in_order(b);
    assert forall|x: Seq<char>| s.contains(x) <==> t.contains(x) by {
        lemma_task_list_contains(a, s, x);
        lemma_task_list_contains(b, t, x);
        lemma_occurs_in_track(a, x);
        lemma_occurs_in_track(b, x);
        assert(events_of(a, x) == events_of(b, x));
    }
    lemma_ascending_unique(s, t);
    assert(s.map_values(|task: Seq<char>| track_json(a, task)) =~= t.map_values(
        |task: Seq<char>| track_json(b, task),
    )) by {
        assert forall|i: int| 0 <= i < s.len() implies track_json(a, #[trigger] s[i])
            == track_json(b, t[i]) by {
            assert(events_of(a, s[i]) == events_of(b, s[i]));
        }
    }
}

/// A finite time is written as a JSON number.
proof fn lemma_time_is_json(time: Double)
    requires
        time is Finite,
    ensures
        is_json(fixed(time, 6), 0),
{
    let n = half_even(time.num() * pow10(6), time.den());
    let t = fixed_point(n, 6);
    lemma_fixed_point_number(n, 6);
    if time.is_negative() {
        assert(fixed(time, 6).skip(1) =~= t);
    } else {
        assert(fixed(time, 6) =~= t);
    }
    assert(is_json_number(fixed(time, 6)));
}

/// A name that is made of ordinary characters stands in quotes as it is.
proof fn lemma_quoted_name(name: Seq<char>)
    requires
        forall|i: int| 0 <= i < name.len() ==> is_ordinary(#[trigger] name[i]),
    ensures
        quoted(name) == seq!['"'] + name + seq!['"'],
        is_json(quoted(name), 0),
{
    law_ordinary_text_stays(name);
    law_quoted_text_is_json(name);
}

/// A member of an object, with one space before its name and one before its value.
spec fn member(name: Seq<char>, value: Seq<char>, behind: nat) -> Member {
    Member { before: 1, name: quoted(name), value: Padded { before: 1, value, behind } }
}

/// The text of a member.
proof fn lemma_member_text(name: Seq<char>, value: Seq<char>, behind: nat)
    requires
        forall|i: int| 0 <= i < name.len() ==> is_ordinary(#[trigger] name[i]),
    ensures
        member(name, value, behind).text() == seq![' ', '"'] + name + seq!['"', ':', ' '] + value
            + spaces(behind),
        is_json_string(member(name, value, behind).name),
{
    lemma_quoted_name(name);
    law_quoted_text_is_json(name);
    assert(member(name, value, behind).text() =~= seq![' ', '"'] + name + seq!['"', ':', ' ']
        + value + spaces(behind));
}

proof fn lemma_action_text(name: Seq<char>)
    requires
        forall|i: int| 0 <= i < name.len() ==> is_ordinary(#[trigger] name[i]),
    ensures
        "{ \"action\": \""@ + name + seq!['"'] == seq!['{'] + member(
            "action"@,
            quoted(name),
            0,
        ).text(),
        is_json_string(member("action"@, quoted(name), 0).name),
{
    reveal_strlit("action");
    reveal_strlit("{ \"action\": \"");
    lemma_quoted_name(name);
    lemma_member_text("action"@, quoted(name), 0);
    assert("{ \"action\": \""@ =~= seq!['{', ' ', '"'] + "action"@ + seq!['"', ':', ' ', '"']);
    assert("{ \"action\": \""@ + name + seq!['"'] =~= seq!['{'] + member(
        "action"@,
        quoted(name),
        0,
    ).text());
}

proof fn lemma_start_text(value: Seq<char>)
    ensures
        "\", \"start\": "@ + value == seq!['"', ','] + member("start"@, value, 0).text(),
        is_json_string(member("start"@, value, 0).name),
{
    reveal_strlit("start");
    reveal_strlit("\", \"start\": ");
    lemma_member_text("start"@, value, 0);
    assert("\", \"start\": "@ =~= seq!['"', ',', ' ', '"'] + "start"@ + seq!['"', ':', ' ']);
    assert("\", \"start\": "@ + value =~= seq!['"', ','] + member("start"@, value, 0).text());
}

proof fn lemma_duration_text(value: Seq<char>)
    ensures
        ", \"duration\": "@ + value + " }"@ == seq![','] + member("duration"@, value, 1).text()
            + seq!['}'],
        is_json_string(member("duration"@, value, 1).name),
{
    reveal_strlit("duration");
    reveal_strlit(", \"duration\": ");
    reveal_strlit(" }");
    lemma_member_text("duration"@, value, 1);
    assert(", \"duration\": "@ =~= seq![',', ' ', '"'] + "duration"@ + seq!['"', ':', ' ']);
    assert(", \"duration\": "@ + value + " }"@ =~= seq![','] + member(
        "duration"@,
        value,
        1,
    ).text() + seq!['}']);
}

proof fn lemma_three_members(a: Member, b: Member, c: Member)
    ensures
        joined(seq![a, b, c].map_values(|m: Member| m.text())) == a.text() + seq![','] + b.text()
            + seq![','] + c.text(),
{
    let none = Seq::<Seq<char>>::empty();
    assert(seq![a, b, c].map_values(|m: Member| m.text()) =~= none.push(a.text()).push(
        b.text(),
    ).push(c.text()));
    lemma_joined_push(none, a.text());
    lemma_joined_push(none.push(a.text()), b.text());
    lemma_joined_push(none.push(a.text()).push(b.text()), c.text());
}

/// An event with finite times is a JSON object.
proof fn lemma_event_is_json(e: EventView)
    requires
        e.time is Finite,
        e.duration is Finite,
    ensures
        is_json(event_json(e), 1),
{
    let name = event_name(e.event_type);
    let start = fixed(e.time, 6);
    let duration = fixed(e.duration, 6);
    assert forall|i: int| 0 <= i < name.len() implies is_ordinary(#[trigger] name[i]) by {
        reveal_strlit("running");
        reveal_strlit("sleeping");
    }
    let a = member("action"@, quoted(name), 0);
    let b = member("start"@, start, 0);
    let c = member("duration"@, duration, 1);
    lemma_action_text(name);
    lemma_start_text(start);
    lemma_duration_text(duration);
    lemma_three_members(a, b, c);
    lemma_quoted_name(name);
    lemma_time_is_json(e.time);
    lemma_time_is_json(e.duration);
    let members = seq![a, b, c];
    lemma_event_parts(
        "{ \"action\": \""@,
        name,
        "\", \"start\": "@,
        start,
        ", \"duration\": "@,
        duration,
        " }"@,
        a.text(),
        b.text(),
        c.text(),
    );
    assert(is_object_of(event_json(e), members));
    assert forall|i: int| 0 <= i < members.len() implies is_json_string(
        (#[trigger] members[i]).name,
    ) && is_json(members[i].value.value, 0) by {}
}

/// The parts of an event, put together in two ways.
proof fn lemma_event_parts(
    p: Seq<char>,
    name: Seq<char>,
    q: Seq<char>,
    start: Seq<char>,
    r: Seq<char>,
    duration: Seq<char>,
    end: Seq<char>,
    a: Seq<char>,
    b: Seq<char>,
    c: Seq<char>,
)
    requires
        p + name + seq!['"'] == seq!['{'] + a,
        q + start == seq!['"', ','] + b,
        r + duration + end == seq![','] + c + seq!['}'],
    ensures
        p + name + q + start + r + duration + end == seq!['{'] + (a + seq![','] + b + seq![',']
            + c) + seq!['}'],
{
    assert(p + name + q + start + r + duration + end =~= (p + name) + (q + start) + (r + duration
        + end));
    assert((p + name) + (seq!['"', ','] + b) =~= (p + name + seq!['"']) + (seq![','] + b));
    assert((seq!['{'] + a) + (seq![','] + b) + (seq![','] + c + seq!['}']) =~= seq!['{'] + (a
        + seq![','] + b + seq![','] + c) + seq!['}']);
}

/// The times of the events are finite.
pub open spec fn has_finite_times(events: Seq<EventView>) -> bool {
    forall|i: int|
        0 <= i < events.len() ==> (#[trigger] events[i]).time is Finite && events[i].duration
            is Finite
}

/// Values without spaces around them.
spec fn bare(values: Seq<Seq<char>>) -> Seq<Padded> {
    values.map_values(|v: Seq<char>| Padded { before: 0, value: v, behind: 0 })
}

/// An array of JSON values is JSON.
proof fn lemma_array_is_json(values: Seq<Seq<char>>, depth: nat)
    requires
        forall|i: int| 0 <= i < values.len() ==> is_json(#[trigger] values[i], depth),
    ensures
        is_json(seq!['['] + joined(values) + seq![']'], depth + 1),
{
    let padded = bare(values);
    assert(padded.map_values(|v: Padded| v.text()) =~= values) by {
        assert forall|i: int| 0 <= i < values.len() implies (#[trigger] padded[i]).text()
            == values[i] by {
            assert(spaces(0) + values[i] + spaces(0) =~= values[i]);
        }
    }
    assert(is_array_of(seq!['['] + joined(values) + seq![']'], padded));
    assert forall|i: int| 0 <= i < padded.len() implies is_json(
        (#[trigger] padded[i]).value,
        depth,
    ) by {
        assert(is_json(values[i], depth));
    }
}

proof fn lemma_track_has_finite_times(events: Seq<EventView>, task: Seq<char>)
    requires
        has_finite_times(events),
    ensures
        has_finite_times(events_of(events, task)),
    decreases events.len(),
{
    if events.len() == 0 {
        reveal(Seq::filter);
    } else {
        let before = events.drop_last();
        let e = events[events.len() - 1];
        assert forall|i: int| 0 <= i < before.len() implies (#[trigger] before[i]).time is Finite
            && before[i].duration is Finite by {
            assert(events[i] == before[i]);
        }
        lemma_track_has_finite_times(before, task);
        law_event_joins_its_track(before, e, task);
        assert(before.push(e) =~= events);
    }
}

proof fn lemma_task_text(task: Seq<char>)
    ensures
        "{ \"task\": \""@ + escaped(task) + seq!['"'] == seq!['{'] + member(
            "task"@,
            quoted(task),
            0,
        ).text(),
        is_json_string(member("task"@, quoted(task), 0).name),
{
    reveal_strlit("task");
    reveal_strlit("{ \"task\": \"");
    lemma_member_text("task"@, quoted(task), 0);
    assert("{ \"task\": \""@ =~= seq!['{', ' ', '"'] + "task"@ + seq!['"', ':', ' ', '"']);
    assert("{ \"task\": \""@ + escaped(task) + seq!['"'] =~= seq!['{'] + member(
        "task"@,
        quoted(task),
        0,
    ).text());
}

proof fn lemma_events_text(values: Seq<char>)
    ensures
        "\", \"events\": ["@ + values + "] }"@ == seq!['"', ','] + member(
            "events"@,
            seq!['['] + values + seq![']'],
            1,
        ).text() + seq!['}'],
        is_json_string(member("events"@, seq!['['] + values + seq![']'], 1).name),
{
    let array = seq!['['] + values + seq![']'];
    reveal_strlit("events");
    reveal_strlit("\", \"events\": [");
    reveal_strlit("] }");
    lemma_member_text("events"@, array, 1);
    assert("\", \"events\": ["@ =~= seq!['"', ',', ' ', '"'] + "events"@ + seq![
        '"',
        ':',
        ' ',
        '[',
    ]);
    assert("] }"@ =~= seq![']', ' ', '}']);
    assert("\", \"events\": ["@ + values + "] }"@ =~= seq!['"', ','] + member(
        "events"@,
        array,
        1,
    ).text() + seq!['}']);
}

proof fn lemma_two_members(a: Member, b: Member)
    ensures
        joined(seq![a, b].map_values(|m: Member| m.text())) == a.text() + seq![','] + b.text(),
{
    let none = Seq::<Seq<char>>::empty();
    assert(seq![a, b].map_values(|m: Member| m.text()) =~= none.push(a.text()).push(b.text()));
    lemma_joined_push(none, a.text());
    lemma_joined_push(none.push(a.text()), b.text());
}

/// The parts of a track, put together in two ways.
proof fn lemma_track_parts(
    p: Seq<char>,
    name: Seq<char>,
    q: Seq<char>,
    values: Seq<char>,
    end: Seq<char>,
    a: Seq<char>,
    b: Seq<char>,
)
    requires
        p + name + seq!['"'] == seq!['{'] + a,
        q + values + end == seq!['"', ','] + b + seq!['}'],
    ensures
        p + name + q + values + end == seq!['{'] + (a + seq![','] + b) + seq!['}'],
{
    assert(p + name + q + values + end =~= (p + name) + (q + values + end));
    assert((p + name) + (seq!['"', ','] + b + seq!['}']) =~= (p + name + seq!['"']) + (seq![',']
        + b + seq!['}']));
    assert((seq!['{'] + a) + (seq![','] + b + seq!['}']) =~= seq!['{'] + (a + seq![','] + b)
        + seq!['}']);
}

/// The track of a task with finite times is a JSON object.
proof fn lemma_track_is_json(events: Seq<EventView>, task: Seq<char>)
    requires
        has_finite_times(events),
    ensures
        is_json(track_json(events, task), 3),
{
    let own = events_of(events, task);
    let values = event_jsons(events, task);
    lemma_track_has_finite_times(events, task);
    assert forall|i: int| 0 <= i < values.len() implies is_json(#[trigger] values[i], 1) by {
        lemma_event_is_json(own[i]);
    }
    lemma_array_is_json(values, 1);
    let array = seq!['['] + joined(values) + seq![']'];
    law_quoted_text_is_json(task);
    let a = member("task"@, quoted(task), 0);
    let b = member("events"@, array, 1);
    lemma_task_text(task);
    lemma_events_text(joined(values));
    let members = seq![a, b];
    lemma_two_members(a, b);
    lemma_track_parts(
        "{ \"task\": \""@,
        escaped(task),
        "\", \"events\": ["@,
        joined(values),
        "] }"@,
        a.text(),
        b.text(),
    );
    assert(is_object_of(track_json(events, task), members));
    assert forall|i: int| 0 <= i < members.len() implies is_json_string(
        (#[trigger] members[i]).name,
    ) && is_json(members[i].value.value, 2) by {
        assert(is_json(quoted(task), 2));
    }
}

/// Where all times are finite the diagram is JSON, whatever the names of the tasks.
pub proof fn law_diagram_is_json(events: Seq<EventView>)
    requires
        has_finite_times(events),
    ensures
        is_json(diagram_json(events), 4),
{
    let values = task_list(events).map_values(|task: Seq<char>| track_json(events, task));
    assert forall|i: int| 0 <= i < values.len() implies is_json(#[trigger] values[i], 3) by {
        lemma_track_is_json(events, task_list(events)[i]);
    }
    lemma_array_is_json(values, 3);
}

impl Default for DiagramHelper {
    fn default() -> (diagram: Self)
        ensures
            diagram@ == Seq::<EventView>::empty(),
            diagram.wf(),
    {
        DiagramHelper::new()
    }
}

impl DiagramHelper {
    /// The times of the events are doubles in their normal form.
    pub open spec fn wf(&self) -> bool {
        forall|i: int|
            0 <= i < self@.len() ==> (#[trigger] self@[i]).time.wf() && self@[i].duration.wf()
    }

    /// A diagram without events.
    pub fn new() -> (diagram: Self)
        ensures
            diagram@ == Seq::<EventView>::empty(),
            diagram.wf(),
    {
        let diagram = DiagramHelper { events: Vec::new() };
        proof {
            assert(diagram@ =~= Seq::<EventView>::empty());
        }
        diagram
    }

    /// Records what a task began to do, when, and for how long, both in seconds.
    pub fn record_event(
        &mut self,
        time_seconds: Double,
        task: &str,
        event_type: EventType,
        duration_seconds: Double,
    )
        requires
            old(self).wf(),
            time_seconds.wf(),
            duration_seconds.wf(),
        ensures
            final(self)@ == old(self)@.push(
                EventView {
                    time: time_seconds,
                    task: task@,
                    event_type,
                    duration: duration_seconds,
                },
            ),
            final(self).wf(),
    {
        let ghost before = self@;
        self.events.push(
            Event {
                time: time_seconds,
                task: String::from_str(task),
                event_type,
                duration: duration_seconds,
            },
        );
        proof {
            let e = EventView {
                time: time_seconds,
                task: task@,
                event_type,
                duration: duration_seconds,
            };
            assert(self@ =~= before.push(e));
            assert forall|i: int| 0 <= i < self@.len() implies (#[trigger] self@[i]).time.wf()
                && self@[i].duration.wf() by {
                if i < before.len() {
                    assert(before[i].time.wf());
                }
            }
        }
    }

    /// The tasks of the events, each of them once and in the order of strings.
    fn tasks(&self) -> (tasks: Vec<Vec<char>>)
        ensures
            is_task_list(self@, views(tasks@)),
    {
        let mut tasks: Vec<Vec<char>> = Vec::new();
        let mut i: usize = 0;
        while i < self.events.len()
            invariant
                i <= self.events.len(),
                self@.len() == self.events@.len(),
                is_ascending(views(tasks@)),
                forall|x: Seq<char>|
                    views(tasks@).contains(x) <==> #[trigger] occurs(self@.take(i as int), x),
            decreases self.events.len() - i,
        {
            let task = to_chars(self.events[i].task.as_str());
            let ghost before = views(tasks@);
            let ghost t = task@;
            insert_task(&mut tasks, task);
            proof {
                let old_events = self@.take(i as int);
                let events = self@.take(i + 1);
                assert(self@[i as int].task == t);
                assert forall|x: Seq<char>|
                    views(tasks@).contains(x) <==> #[trigger] occurs(events, x) by {
                    assert(before.contains(x) <==> occurs(old_events, x));
                    assert(events[i as int].task == t);
                    if occurs(old_events, x) {
                        let j = choose|j: int|
                            0 <= j < old_events.len() && (#[trigger] old_events[j]).task == x;
                        assert(events[j].task == x);
                    }
                    if occurs(events, x) && x != t {
                        let j = choose|j: int|
                            0 <= j < events.len() && (#[trigger] events[j]).task == x;
                        assert(old_events[j].task == x);
                    }
                }
            }
            i += 1;
        }
        proof {
            let list = views(tasks@);
            assert(self@.take(i as int) =~= self@);
            assert forall|i: int| 0 <= i < self@.len() implies list.contains(
                (#[trigger] self@[i]).task,
            ) by {
                assert(occurs(self@, self@[i].task));
            }
            assert forall|k: int| 0 <= k < list.len() implies occurs(
                self@,
                #[trigger] list[k],
            ) by {
                assert(list.contains(list[k]));
            }
        }
        tasks
    }

    /// The track of one task as JSON.
    fn single_track_json(&self, task: &Vec<char>) -> (json: String)
        requires
            self.wf(),
        ensures
            json@ == track_json(self@, task@),
    {
        let mut json = String::from_str("{ \"task\": \"");
        let mut i: usize = 0;
        let ghost start = json@;
        while i < task.len()
            invariant
                i <= task.len(),
                json@ == start + escaped(task@.take(i as int)),
            decreases task.len() - i,
        {
            push_escaped(&mut json, task[i]);
            proof {
                assert(task@.take(i + 1).drop_last() =~= task@.take(i as int));
                assert(json@ =~= start + escaped(task@.take(i + 1)));
            }
            i += 1;
        }
        proof {
            assert(task@.take(i as int) =~= task@);
        }
        json.append("\", \"events\": [");
        let ghost start = json@;
        let mut first: bool = true;
        let mut j: usize = 0;
        proof {
            reveal(Seq::filter);
            assert(self@.take(0) =~= Seq::<EventView>::empty());
            assert(event_jsons(self@.take(0), task@) =~= Seq::<Seq<char>>::empty());
            assert(json@ =~= start + joined(event_jsons(self@.take(0), task@)));
        }
        while j < self.events.len()
            invariant
                j <= self.events.len(),
                self@.len() == self.events@.len(),
                self.wf(),
                first <==> event_jsons(self@.take(j as int), task@).len() == 0,
                json@ == start + joined(event_jsons(self@.take(j as int), task@)),
            decreases self.events.len() - j,
        {
            let ghost e = self@[j as int];
            let ghost parts = event_jsons(self@.take(j as int), task@);
            let ghost before = json@;
            proof {
                assert(self@.take(j + 1) =~= self@.take(j as int).push(e));
                lemma_event_jsons_push(self@.take(j as int), e, task@);
                lemma_joined_push(parts, event_json(e));
                assert(e == self.events@[j as int]@);
            }
            let same = match compare(&to_chars(self.events[j].task.as_str()), task) {
                Order::Same => true,
                _ => false,
            };
            proof {
                lemma_precedes_irreflexive(task@);
            }
            if same {
                if !first {
                    json.push(',');
                }
                json.append(single_event_json(&self.events[j]).as_str());
                proof {
                    assert(json@ =~= start + joined(parts.push(event_json(e))));
                }
                first = false;
            }
            j += 1;
        }
        proof {
            assert(self@.take(j as int) =~= self@);
        }
        json.append("] }");
        proof {
            assert(json@ =~= track_json(self@, task@));
        }
        json
    }

    /// The events as JSON: an array of one track for each task, in the order of their names. It is
    /// JSON where all times are finite. JSON has no other numbers: a time that is not finite is
    /// written as `inf`, `-inf` or `NaN`.
    pub fn create_data_json(&self) -> (json: String)
        requires
            self.wf(),
        ensures
            json@ == diagram_json(self@),
    {
        let tasks = self.tasks();
        let ghost list = views(tasks@);
        let ghost tracks = list.map_values(|task: Seq<char>| track_json(self@, task));
        proof {
            lemma_task_list_unique(self@, list);
        }
        let mut json = String::new();
        json.push('[');
        let mut i: usize = 0;
        proof {
            assert(tracks.take(0) =~= Seq::<Seq<char>>::empty());
            assert(json@ =~= seq!['['] + joined(tracks.take(0)));
        }
        while i < tasks.len()
            invariant
                i <= tasks.len(),
                self.wf(),
                list == views(tasks@),
                tracks == list.map_values(|task: Seq<char>| track_json(self@, task)),
                json@ == seq!['['] + joined(tracks.take(i as int)),
            decreases tasks.len() - i,
        {
            let ghost before = tracks.take(i as int);
            if i > 0 {
                json.push(',');
            }
            json.append(self.single_track_json(&tasks[i]).as_str());
            proof {
                assert(list[i as int] == tasks@[i as int]@);
                assert(tracks[i as int] == track_json(self@, list[i as int]));
                assert(tracks.take(i + 1) =~= before.push(tracks[i as int]));
                lemma_joined_push(before, tracks[i as int]);
                assert(json@ =~= seq!['['] + joined(tracks.take(i + 1)));
            }
            i += 1;
        }
        proof {
            assert(tracks.take(i as int) =~= tracks);
        }
        json.push(']');
        proof {
            assert(json@ =~= diagram_json(self@));
        }
        json
    }
}

/// Two different names of events.
pub proof fn law_names_of_events()
    ensures
        event_name(EventType::Running) == "running"@,
        event_name(EventType::Sleeping) == "sleeping"@,
{
}

/// The name of what a task does.
pub open spec fn verb(event_type: EventType) -> Seq<char> {
    if event_type is Running {
        "running"@
    } else {
        "sleeping"@
    }
}

/// The text of an event is made of these parts.
pub open spec fn is_event_text(
    text: Seq<char>,
    action: Seq<char>,
    start: Seq<char>,
    duration: Seq<char>,
) -> bool {
    text == "{ \"action\": \""@ + action + "\", \"start\": "@ + start + ", \"duration\": "@
        + duration + " }"@
}

/// An event with finite times that are not negative is written with what the task does, its start
/// and its duration, both to the nearest of six digits behind the point.
pub proof fn law_event_text(e: EventView)
    requires
        e.time is Finite,
        !e.time.is_negative(),
        e.duration is Finite,
        !e.duration.is_negative(),
    ensures
        exists|start: Seq<char>, duration: Seq<char>|
            {
                &&& #[trigger] is_event_text(
                    event_json(e),
                    verb(e.event_type),
                    start,
                    duration,
                )
                &&& is_decimal_near(start, e.time.num(), e.time.den(), 6)
                &&& is_decimal_near(duration, e.duration.num(), e.duration.den(), 6)
            },
{
    law_fixed_notation(e.time, 6);
    law_fixed_notation(e.duration, 6);
    assert(is_event_text(
        event_json(e),
        verb(e.event_type),
        fixed(e.time, 6),
        fixed(e.duration, 6),
    ));
}

/// What stands before the events of a track, and behind them.
pub open spec fn track_head(task: Seq<char>) -> Seq<char> {
    "{ \"task\": \""@ + escaped(task) + "\", \"events\": ["@
}

/// The track of a task without events is empty, and each event of the task that is recorded comes to
/// its end, behind a comma if it is not the first. Events of other tasks do not change it.
pub proof fn law_track_grows(events: Seq<EventView>, e: EventView, task: Seq<char>)
    ensures
        track_json(Seq::empty(), task) == track_head(task) + "] }"@,
        e.task != task ==> track_json(events.push(e), task) == track_json(events, task),
        e.task == task ==> exists|inner: Seq<char>|
            {
                &&& track_json(events, task) == #[trigger] (track_head(task) + inner + "] }"@)
                &&& track_json(events.push(e), task) == if events_of(events, task).len() == 0 {
                    track_head(task) + event_json(e) + "] }"@
                } else {
                    track_head(task) + (inner + seq![','] + event_json(e)) + "] }"@
                }
            },
{
    let parts = event_jsons(events, task);
    lemma_event_jsons_push(events, e, task);
    lemma_joined_push(parts, event_json(e));
    assert(event_jsons(Seq::<EventView>::empty(), task) =~= Seq::<Seq<char>>::empty()) by {
        reveal(Seq::filter);
    }
    assert(track_json(Seq::<EventView>::empty(), task) =~= track_head(task) + "] }"@);
    if e.task == task {
        let inner = joined(parts);
        assert(track_json(events, task) =~= track_head(task) + inner + "] }"@);
    }
}

/// The tracks are those of the tasks, which are all that have an event, each of them once and in the
/// order of their names.
pub open spec fn are_tracks_of(
    events: Seq<EventView>,
    tasks: Seq<Seq<char>>,
    tracks: Seq<Seq<char>>,
) -> bool {
    &&& tracks.len() == tasks.len()
    &&& forall|i: int| 0 <= i < tracks.len() ==> #[trigger] tracks[i] == track_json(events, tasks[i])
    &&& forall|i: int, j: int| 0 <= i < j < tasks.len() ==> precedes(tasks[i], tasks[j])
    &&& forall|task: Seq<char>| #[trigger]
        tasks.contains(task) <==> events_of(events, task).len() > 0
}

/// The diagram holds one track for each task that has an event, in the order of their names, and
/// nothing else.
pub proof fn law_diagram_holds_each_track_once(events: Seq<EventView>)
    ensures
        exists|tasks: Seq<Seq<char>>, tracks: Seq<Seq<char>>| #[trigger]
            are_tracks_of(events, tasks, tracks) && diagram_json(events) == seq!['['] + joined(
                tracks,
            ) + seq![']'],
{
    let tasks = task_list(events);
    let tracks = tasks.map_values(|task: Seq<char>| track_json(events, task));
    law_tasks_are_listed_once_in_order(events);
    assert forall|task: Seq<char>| #[trigger]
        tasks.contains(task) <==> events_of(events, task).len() > 0 by {
        lemma_task_list_contains(events, tasks, task);
        lemma_occurs_in_track(events, task);
    }
    assert(are_tracks_of(events, tasks, tracks));
    assert(diagram_json(events) == seq!['['] + joined(tracks) + seq![']']);
}

/// The order of names: by the first character in which they differ, and a name behind its own
/// beginnings.
pub proof fn law_order_of_names(
    head: Seq<char>,
    x: char,
    y: char,
    s: Seq<char>,
    t: Seq<char>,
)
    ensures
        x != y ==> (precedes(head + seq![x] + s, head + seq![y] + t) <==> x < y),
        precedes(head, head + s) <==> s.len() > 0,
        !precedes(head + s, head),
    decreases head.len(),
{
    let a = head + seq![x] + s;
    let b = head + seq![y] + t;
    if head.len() == 0 {
        assert(a[0] == x && b[0] == y);
        assert(head + s =~= s);
    } else {
        let rest = head.drop_first();
        law_order_of_names(rest, x, y, s, t);
        assert(a.drop_first() =~= rest + seq![x] + s);
        assert(b.drop_first() =~= rest + seq![y] + t);
        assert((head + s).drop_first() =~= rest + s);
        assert(a[0] == head[0] && b[0] == head[0] && (head + s)[0] == head[0]);
    }
}

} // verus!
