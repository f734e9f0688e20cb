use kvm_core::{decode_env, encode_env, EventEnvelope, InputEvent, MouseButton};

fn env(ts: u128, seq: u64, event: InputEvent) -> EventEnvelope {
    EventEnvelope { ts_millis: ts, seq, event }
}

#[test]
fn round_trip_mouse_move() {
    let e = env(1_700_000_000_123, 1, InputEvent::MouseMove { x: 100, y: 200 });
    assert_eq!(decode_env(&encode_env(&e)), Some(e));
}

#[test]
fn round_trip_negative_coordinates() {
    let e = env(0, 7, InputEvent::MouseMove { x: -1920, y: i32::MIN });
    let bytes = encode_env(&e);
    assert_eq!(decode_env(&bytes), Some(e));
    let e = env(u128::MAX, u64::MAX, InputEvent::MouseMove { x: i32::MAX, y: -1 });
    assert_eq!(decode_env(&encode_env(&e)), Some(e));
}

#[test]
fn round_trip_every_button() {
    for button in [MouseButton::Left, MouseButton::Right, MouseButton::Middle, MouseButton::Other(0), MouseButton::Other(255)] {
        for down in [true, false] {
            let e = env(42, 3, InputEvent::MouseButton { button, down });
            assert_eq!(decode_env(&encode_env(&e)), Some(e));
        }
    }
}

#[test]
fn other_button_keeps_its_code() {
    let e = env(10, 2, InputEvent::MouseButton { button: MouseButton::Other(17), down: true });
    let decoded = decode_env(&encode_env(&e)).unwrap();
    assert_eq!(decoded.event, InputEvent::MouseButton { button: MouseButton::Other(17), down: true });
}

#[test]
fn encoding_of_a_move_is_exact() {
    let e = env(0x0102, 1, InputEvent::MouseMove { x: -2, y: 3 });
    let mut expected = vec![0x02, 0x01];
    expected.extend_from_slice(&[0; 14]);
    expected.extend_from_slice(&[1, 0, 0, 0, 0, 0, 0, 0]);
    expected.extend_from_slice(&[0, 0, 0, 0]);
    expected.extend_from_slice(&[0xfe, 0xff, 0xff, 0xff]);
    expected.extend_from_slice(&[3, 0, 0, 0]);
    assert_eq!(encode_env(&e), expected);
}

#[test]
fn encoding_of_a_button_is_exact() {
    let e = env(0, 0, InputEvent::MouseButton { button: MouseButton::Other(17), down: false });
    let mut expected = vec![0u8; 24];
    expected.extend_from_slice(&[1, 0, 0, 0, 3, 0, 0, 0, 17, 0]);
    assert_eq!(encode_env(&e), expected);
    let e = env(0, 0, InputEvent::MouseButton { button: MouseButton::Middle, down: true });
    let mut expected = vec![0u8; 24];
    expected.extend_from_slice(&[1, 0, 0, 0, 2, 0, 0, 0, 1]);
    assert_eq!(encode_env(&e), expected);
}

#[test]
fn encoding_matches_bincode_layout() {
    let e = env(1_700_000_000_000, 9, InputEvent::MouseMove { x: -5, y: 77 });
    let reference = bincode::serialize(&(1_700_000_000_000u128, 9u64, 0u32, -5i32, 77i32)).unwrap();
    assert_eq!(encode_env(&e), reference);
    let e = env(3, 4, InputEvent::MouseButton { button: MouseButton::Other(17), down: true });
    let reference = bincode::serialize(&(3u128, 4u64, 1u32, 3u32, 17u8, true)).unwrap();
    assert_eq!(encode_env(&e), reference);
    let e = env(3, 4, InputEvent::MouseButton { button: MouseButton::Right, down: false });
    let reference = bincode::serialize(&(3u128, 4u64, 1u32, 1u32, false)).unwrap();
    assert_eq!(encode_env(&e), reference);
}

#[test]
fn decode_rejects_truncated_input() {
    let e = env(5, 6, InputEvent::MouseMove { x: 1, y: 2 });
    let bytes = encode_env(&e);
    for cut in 0..bytes.len() {
        assert_eq!(decode_env(&bytes[..cut]), None);
    }
}

#[test]
fn decode_rejects_unknown_event_tag() {
    let mut bytes = encode_env(&env(5, 6, InputEvent::MouseMove { x: 1, y: 2 }));
    bytes[24] = 2;
    assert_eq!(decode_env(&bytes), None);
}

#[test]
fn decode_rejects_unknown_button_tag() {
    let mut bytes = encode_env(&env(5, 6, InputEvent::MouseButton { button: MouseButton::Left, down: true }));
    bytes[28] = 4;
    assert_eq!(decode_env(&bytes), None);
}

#[test]
fn decode_rejects_invalid_flag_byte() {
    let mut bytes = encode_env(&env(5, 6, InputEvent::MouseButton { button: MouseButton::Left, down: true }));
    let last = bytes.len() - 1;
    bytes[last] = 2;
    assert_eq!(decode_env(&bytes), None);
}

#[test]
fn decode_ignores_trailing_bytes() {
    let e = env(5, 6, InputEvent::MouseMove { x: 1, y: 2 });
    let mut bytes = encode_env(&e);
    bytes.extend_from_slice(&[0, 0xff, 7]);
    assert_eq!(decode_env(&bytes), Some(e));
}

#[test]
fn decode_of_empty_buffer_fails() {
    assert_eq!(decode_env(&[]), None);
}
