use concurrency_fuzz_scheduler::diagram::{DiagramHelper, EventType};
use concurrency_fuzz_scheduler::double::Double;

fn double(x: f64) -> Double {
    Double::from_bits(x.to_bits())
}

fn record(diagram: &mut DiagramHelper, time: f64, task: &str, event_type: EventType, duration: f64) {
    diagram.record_event(double(time), task, event_type, double(duration));
}

#[test]
fn names_of_events() {
    assert_eq!(EventType::Running.as_str(), "running");
    assert_eq!(EventType::Sleeping.as_str(), "sleeping");
}

#[test]
fn empty_diagram() {
    assert_eq!(DiagramHelper::new().create_data_json(), "[]");
    assert_eq!(DiagramHelper::default().create_data_json(), "[]");
}

#[test]
fn diagram_of_one_event() {
    let mut diagram = DiagramHelper::new();
    record(&mut diagram, 0.11, "queue", EventType::Running, 0.057);
    assert_eq!(
        diagram.create_data_json(),
        "[{ \"task\": \"queue\", \"events\": [{ \"action\": \"running\", \
         \"start\": 0.110000, \"duration\": 0.057000 }] }]"
    );
}

#[test]
fn tracks_are_sorted_by_task() {
    let mut diagram = DiagramHelper::new();
    record(&mut diagram, 1.0, "b", EventType::Running, 0.5);
    record(&mut diagram, 1.25, "a", EventType::Sleeping, 2.0);
    record(&mut diagram, 1.5, "b", EventType::Sleeping, 0.0000005);
    record(&mut diagram, 2.0, "B", EventType::Running, 1.0);
    record(&mut diagram, 2.0, "ab", EventType::Running, 1.0);
    record(&mut diagram, 2.0, "", EventType::Running, 1.0);
    record(&mut diagram, 2.0, "\u{e9}", EventType::Running, 1.0);
    let event = |action: &str, start: f64, duration: f64| {
        format!("{{ \"action\": \"{action}\", \"start\": {start:.6}, \"duration\": {duration:.6} }}")
    };
    let track = |task: &str, events: &str| format!("{{ \"task\": \"{task}\", \"events\": [{events}] }}");
    let two = format!("{},{}", event("running", 1.0, 0.5), event("sleeping", 1.5, 0.0000005));
    let one = event("running", 2.0, 1.0);
    let expected = [
        track("", &one),
        track("B", &one),
        track("a", &event("sleeping", 1.25, 2.0)),
        track("ab", &one),
        track("b", &two),
        track("\u{e9}", &one),
    ];
    assert_eq!(diagram.create_data_json(), format!("[{}]", expected.join(",")));
}

#[test]
fn order_between_tasks_does_not_matter() {
    let mut one = DiagramHelper::new();
    record(&mut one, 1.0, "x", EventType::Running, 0.1);
    record(&mut one, 2.0, "y", EventType::Running, 0.2);
    record(&mut one, 3.0, "x", EventType::Sleeping, 0.3);
    let mut other = DiagramHelper::new();
    record(&mut other, 2.0, "y", EventType::Running, 0.2);
    record(&mut other, 1.0, "x", EventType::Running, 0.1);
    record(&mut other, 3.0, "x", EventType::Sleeping, 0.3);
    assert_eq!(one.create_data_json(), other.create_data_json());
    let mut turned = DiagramHelper::new();
    record(&mut turned, 3.0, "x", EventType::Sleeping, 0.3);
    record(&mut turned, 1.0, "x", EventType::Running, 0.1);
    record(&mut turned, 2.0, "y", EventType::Running, 0.2);
    assert_ne!(one.create_data_json(), turned.create_data_json());
}

#[test]
fn names_are_escaped() {
    let track = |name: &str| {
        let mut diagram = DiagramHelper::new();
        record(&mut diagram, 0.0, name, EventType::Running, 1.0);
        let json = diagram.create_data_json();
        let start = "[{ \"task\": \"";
        let end = "\", \"events\": [{ \"action\": \"running\", \
                   \"start\": 0.000000, \"duration\": 1.000000 }] }]";
        assert!(json.starts_with(start) && json.ends_with(end), "{json}");
        json[start.len()..json.len() - end.len()].to_string()
    };
    assert_eq!(track("a\"b"), "a\\\"b");
    assert_eq!(track("a\\b"), "a\\\\b");
    assert_eq!(track("\\\""), "\\\\\\\"");
    assert_eq!(track("\n\t\u{0}\u{1f}"), "\\u000a\\u0009\\u0000\\u001f");
    assert_eq!(track("kworker/0:1-events"), "kworker/0:1-events");
    assert_eq!(track(" '\u{7f}\u{e9}\u{1f980}"), " '\u{7f}\u{e9}\u{1f980}");
}

#[test]
fn times_that_are_not_finite() {
    let mut diagram = DiagramHelper::new();
    record(&mut diagram, f64::INFINITY, "t", EventType::Running, f64::NAN);
    assert_eq!(
        diagram.create_data_json(),
        "[{ \"task\": \"t\", \"events\": [{ \"action\": \"running\", \
         \"start\": inf, \"duration\": NaN }] }]"
    );
}
