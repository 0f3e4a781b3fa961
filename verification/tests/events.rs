use concurrency_fuzz_scheduler::config::Shared;
use concurrency_fuzz_scheduler::diagram::{DiagramHelper, EventType};
use concurrency_fuzz_scheduler::double::Double;
use concurrency_fuzz_scheduler::fuzz::{
    comm_to_string, handle_event, record_task_event, take_until_zero, FuzzEvent, Loader,
    LoaderAction, RuntimeConfig,
};

fn double(x: f64) -> Double {
    Double::from_bits(x.to_bits())
}

fn field(name: &[u8]) -> Vec<u8> {
    let mut comm = name.to_vec();
    comm.resize(16, 0);
    comm
}

#[test]
fn names_end_at_the_first_zero() {
    assert_eq!(comm_to_string(&field(b"queue")), "queue");
    assert_eq!(comm_to_string(&b"a\0b\0c".to_vec()), "a");
    assert_eq!(comm_to_string(&b"0123456789abcdef".to_vec()), "0123456789abcdef");
    assert_eq!(comm_to_string(&field(b"")), "");
    assert_eq!(comm_to_string(&Vec::new()), "");
    assert_eq!(take_until_zero(&vec![1, 2, 0, 3]), vec![1, 2]);
    assert_eq!(take_until_zero(&vec![1, 2]), vec![1, 2]);
}

#[test]
fn names_need_not_be_utf8() {
    assert_eq!(comm_to_string(&field("f\u{fc}r".as_bytes())), "f\u{fc}r");
    assert_eq!(comm_to_string(&field(b"a\xffb")), "a\u{fffd}b");
    assert_eq!(comm_to_string(&field(b"a\xc3")), "a\u{fffd}");
}

#[test]
fn log_lines() {
    let mut diagram = DiagramHelper::new();
    let event = FuzzEvent { comm: field(b"queue"), event_type: 0, duration_ns: 57_999_999 };
    assert_eq!(
        handle_event(&mut diagram, double(0.110), double(0.010), &event),
        "[ 0.110| 0.010] queue is running for 57ms"
    );
    let event = FuzzEvent { comm: field(b"queue"), event_type: 1, duration_ns: 1_218_000_000 };
    assert_eq!(
        handle_event(&mut diagram, double(0.963), double(0.863), &event),
        "[ 0.963| 0.863] queue is sleeping for 1218ms"
    );
    let event = FuzzEvent { comm: field(b"a\xff"), event_type: 7, duration_ns: 0 };
    assert_eq!(
        handle_event(&mut diagram, double(12345.6789), double(100.0), &event),
        "[12345.679|100.000] a\u{fffd} is sleeping for 0ms"
    );
    assert_eq!(
        diagram.create_data_json(),
        "[{ \"task\": \"a\u{fffd}\", \"events\": [{ \"action\": \"sleeping\", \
         \"start\": 12345.678900, \"duration\": 0.000000 }] },\
         { \"task\": \"queue\", \"events\": [{ \"action\": \"running\", \
         \"start\": 0.110000, \"duration\": 0.058000 },{ \"action\": \"sleeping\", \
         \"start\": 0.963000, \"duration\": 1.218000 }] }]"
    );
}

#[test]
fn log_lines_are_aligned() {
    for (overall, iteration) in [(0.0, 0.0), (9.9994, 9.9995), (99.9995, 1e6), (0.1 + 0.2, 1e-9)] {
        for duration_ns in [0, 999_999, 1_000_000, 123_456_789, u64::MAX] {
            let mut diagram = DiagramHelper::new();
            let line = record_task_event(
                &mut diagram,
                double(overall),
                double(iteration),
                "t",
                EventType::Running,
                duration_ns,
            );
            let millis = duration_ns / 1_000_000;
            assert_eq!(line, format!("[{overall:6.3}|{iteration:6.3}] t is running for {millis}ms"));
            let duration = duration_ns as f64 / 1_000_000_000.0;
            assert!(diagram
                .create_data_json()
                .contains(&format!("\"start\": {overall:.6}, \"duration\": {duration:.6} ")));
        }
    }
}

#[test]
fn loader_follows_the_supervisor() {
    let mut shared = Shared::new();
    let mut loader = Loader::new();
    let idle = RuntimeConfig { target_tgid: 0, generation: 0 };
    assert_eq!(RuntimeConfig::idle(), idle);
    assert_eq!(
        loader.step(false, &shared),
        LoaderAction::Poll { new_generation: false, config: idle }
    );
    shared.set_attached();
    shared.begin_iteration();
    assert_eq!(
        loader.step(false, &shared),
        LoaderAction::Poll {
            new_generation: true,
            config: RuntimeConfig { target_tgid: 0, generation: 1 }
        }
    );
    shared.set_target(4242);
    assert_eq!(
        loader.step(false, &shared),
        LoaderAction::Poll {
            new_generation: false,
            config: RuntimeConfig { target_tgid: 4242, generation: 1 }
        }
    );
    assert_eq!(loader.step(true, &shared), LoaderAction::Detach);
    shared.begin_iteration();
    shared.set_done();
    assert_eq!(loader.step(false, &shared), LoaderAction::Detach);
    assert_eq!(loader, Loader { generation: 1 });
}

#[test]
fn generations_are_told_in_32_bits() {
    let mut shared = Shared::new();
    shared.generation = 0xffff_ffff;
    assert_eq!(RuntimeConfig::from_shared(&shared).generation, 0xffff_ffff);
    shared.begin_iteration();
    assert_eq!(shared.generation, 0x1_0000_0000);
    assert_eq!(RuntimeConfig::from_shared(&shared).generation, 0);
    shared.generation = u64::MAX;
    shared.begin_iteration();
    assert_eq!(shared.generation, 0);
}

#[test]
fn targets_of_any_number_are_told() {
    let mut shared = Shared::new();
    for pid in [0, 1, 0x7fff_ffff, 0x8000_0000, 0xffff_ffff] {
        shared.set_target(pid);
        assert_eq!(shared.script_pid, pid as i32);
        assert_eq!(RuntimeConfig::from_shared(&shared).target_tgid, pid);
    }
    shared.clear_target();
    assert_eq!(RuntimeConfig::from_shared(&shared).target_tgid, 0);
}
