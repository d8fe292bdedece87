use task_api::codec::{decode_task, encode_task, FORMAT_VERSION, RECORD_LEN};
use task_api::task::{State, Task, TaskType};

fn sample(id: u128, task_type: TaskType, execution_time: i64, state: State) -> Task {
    Task { id, task_type, execution_time, state }
}

#[test]
fn round_trip_simple() {
    let t = sample(42, TaskType::Foo, 1_700_000_000, State::New);
    let bytes = encode_task(&t);
    assert_eq!(bytes.len(), RECORD_LEN);
    assert_eq!(decode_task(&bytes), Some(t));
}

#[test]
fn round_trip_every_type_and_state() {
    let types = [TaskType::Foo, TaskType::Bar, TaskType::Baz];
    let states = [State::New, State::Running, State::Done];
    let mut id: u128 = 1;
    for task_type in types {
        for state in states {
            let t = sample(id, task_type, 123_456, state);
            assert_eq!(decode_task(&encode_task(&t)), Some(t));
            id = id.wrapping_mul(31).wrapping_add(7);
        }
    }
}

#[test]
fn round_trip_extreme_values() {
    let cases = [
        sample(0, TaskType::Foo, 0, State::New),
        sample(u128::MAX, TaskType::Bar, i64::MAX, State::Done),
        sample(u128::MAX / 3, TaskType::Baz, i64::MIN, State::Running),
        sample(1, TaskType::Baz, -1, State::New),
    ];
    for t in cases {
        assert_eq!(decode_task(&encode_task(&t)), Some(t));
    }
}

#[test]
fn record_layout_exact() {
    let t = sample(0x0102, TaskType::Bar, 5, State::New);
    let bytes = encode_task(&t);
    let mut expected: Vec<u8> = Vec::new();
    expected.push(FORMAT_VERSION);
    // id, 16 bytes little-endian
    expected.push(0x02);
    expected.push(0x01);
    for _ in 0..14 {
        expected.push(0);
    }
    // task type Bar
    expected.push(1);
    // execution time 5, 8 bytes little-endian
    expected.push(5);
    for _ in 0..7 {
        expected.push(0);
    }
    // state New
    expected.push(0);
    assert_eq!(bytes, expected);
}

#[test]
fn negative_time_layout() {
    let t = sample(9, TaskType::Foo, -2, State::Done);
    let bytes = encode_task(&t);
    // -2 is stored as 2^64 - 2
    assert_eq!(&bytes[18..26], &[0xfe, 0xff, 0xff, 0xff, 0xff, 0xff, 0xff, 0xff]);
    assert_eq!(decode_task(&bytes), Some(t));
}

#[test]
fn decode_rejects_wrong_length() {
    let t = sample(7, TaskType::Foo, 10, State::New);
    let mut bytes = encode_task(&t);
    bytes.push(0);
    assert_eq!(decode_task(&bytes), None);
    let short: Vec<u8> = vec![FORMAT_VERSION, 0, 0];
    assert_eq!(decode_task(&short), None);
    let empty: Vec<u8> = Vec::new();
    assert_eq!(decode_task(&empty), None);
}

#[test]
fn decode_rejects_unknown_version() {
    let t = sample(7, TaskType::Foo, 10, State::New);
    let mut bytes = encode_task(&t);
    bytes[0] = FORMAT_VERSION + 1;
    assert_eq!(decode_task(&bytes), None);
}

#[test]
fn decode_rejects_unknown_type_code() {
    let t = sample(7, TaskType::Foo, 10, State::New);
    let mut bytes = encode_task(&t);
    bytes[17] = 3;
    assert_eq!(decode_task(&bytes), None);
}

#[test]
fn decode_rejects_unknown_state_code() {
    let t = sample(7, TaskType::Foo, 10, State::New);
    let mut bytes = encode_task(&t);
    bytes[26] = 9;
    assert_eq!(decode_task(&bytes), None);
}
