use kvm_core::{
    decode_env, encode_env, encode_frame, inject_button, millis_of, injector_command, latency_millis, map_button,
    map_event, now_millis, split_frames, EventEnvelope, InjectButton, InjectCommand, InputEvent,
    MouseButton, RawButton, RawEvent, Sender,
};

/// What a receiver does with a whole stream: split, decode, drop what does
/// not decode, and turn the rest into injector calls.
fn receive(stream: &[u8]) -> (Vec<EventEnvelope>, Vec<InjectCommand>) {
    let (payloads, _) = split_frames(stream);
    let mut envs = Vec::new();
    let mut cmds = Vec::new();
    for p in payloads {
        if let Some(e) = decode_env(&p) {
            envs.push(e);
            if let Some(c) = injector_command(e.event) {
                cmds.push(c);
            }
        }
    }
    (envs, cmds)
}

#[test]
fn raw_buttons_map_totally() {
    assert_eq!(map_button(RawButton::Left), MouseButton::Left);
    assert_eq!(map_button(RawButton::Right), MouseButton::Right);
    assert_eq!(map_button(RawButton::Middle), MouseButton::Middle);
    assert_eq!(map_button(RawButton::Unknown(8)), MouseButton::Other(8));
}

#[test]
fn raw_events_map_or_drop() {
    assert_eq!(map_event(RawEvent::MouseMove { x: -4, y: 5 }), Some(InputEvent::MouseMove { x: -4, y: 5 }));
    assert_eq!(
        map_event(RawEvent::ButtonPress(RawButton::Left)),
        Some(InputEvent::MouseButton { button: MouseButton::Left, down: true })
    );
    assert_eq!(
        map_event(RawEvent::ButtonRelease(RawButton::Unknown(17))),
        Some(InputEvent::MouseButton { button: MouseButton::Other(17), down: false })
    );
    assert_eq!(map_event(RawEvent::Other), None);
}

#[test]
fn sender_numbers_from_one_and_skips_unmapped() {
    let mut s = Sender::new();
    assert_eq!(s.next_seq(), 1);
    let (e1, f1) = s.prepare(RawEvent::MouseMove { x: 1, y: 2 }, 1000).unwrap();
    assert_eq!(e1, EventEnvelope { ts_millis: 1000, seq: 1, event: InputEvent::MouseMove { x: 1, y: 2 } });
    assert_eq!(f1, encode_frame(&encode_env(&e1)));
    assert!(s.prepare(RawEvent::Other, 1001).is_none());
    assert_eq!(s.next_seq(), 2);
    let (e2, _) = s.prepare(RawEvent::ButtonPress(RawButton::Right), 1002).unwrap();
    assert_eq!(e2.seq, 2);
    assert_eq!(s.next_seq(), 3);
}

#[test]
fn injector_commands_per_event() {
    assert_eq!(injector_command(InputEvent::MouseMove { x: -10, y: 20 }), Some(InjectCommand::MoveTo { x: -10, y: 20 }));
    assert_eq!(
        injector_command(InputEvent::MouseButton { button: MouseButton::Middle, down: false }),
        Some(InjectCommand::SetButton { button: InjectButton::Middle, pressed: false })
    );
    assert_eq!(injector_command(InputEvent::MouseButton { button: MouseButton::Other(17), down: true }), None);
    assert_eq!(inject_button(MouseButton::Right), Some(InjectButton::Right));
    assert_eq!(inject_button(MouseButton::Other(3)), None);
}

#[test]
fn latency_saturates() {
    assert_eq!(latency_millis(1500, 1200), 300);
    assert_eq!(latency_millis(1200, 1500), 0);
    assert_eq!(latency_millis(7, 7), 0);
}

#[test]
fn clock_is_after_the_epoch() {
    let a = now_millis();
    let b = now_millis();
    assert!(a > 1_600_000_000_000);
    assert!(b >= a);
}

#[test]
fn events_arrive_in_sequence_order() {
    let mut s = Sender::new();
    let mut stream = Vec::new();
    for i in 0..50i32 {
        let raw = if i % 3 == 0 { RawEvent::ButtonPress(RawButton::Left) } else { RawEvent::MouseMove { x: i, y: -i } };
        let (_, f) = s.prepare(raw, 100 + i as u128).unwrap();
        stream.extend(f);
    }
    let (envs, cmds) = receive(&stream);
    assert_eq!(envs.len(), 50);
    assert_eq!(cmds.len(), 50);
    for (i, e) in envs.iter().enumerate() {
        assert_eq!(e.seq, i as u64 + 1);
    }
}

#[test]
fn undecodable_frame_is_dropped_and_reading_goes_on() {
    let a = EventEnvelope { ts_millis: 1, seq: 1, event: InputEvent::MouseMove { x: 3, y: 4 } };
    let b = EventEnvelope { ts_millis: 2, seq: 3, event: InputEvent::MouseMove { x: 5, y: 6 } };
    let mut bad = encode_env(&EventEnvelope { ts_millis: 1, seq: 2, event: InputEvent::MouseMove { x: 0, y: 0 } });
    bad[24] = 9;
    let mut stream = encode_frame(&encode_env(&a));
    stream.extend(encode_frame(&bad));
    stream.extend(encode_frame(&encode_env(&b)));
    let (envs, _) = receive(&stream);
    assert_eq!(envs, vec![a, b]);
}

#[test]
fn unsupported_button_is_skipped_at_injection() {
    let mut s = Sender::new();
    let mut stream = Vec::new();
    stream.extend(s.prepare(RawEvent::ButtonPress(RawButton::Unknown(17)), 1).unwrap().1);
    stream.extend(s.prepare(RawEvent::MouseMove { x: 8, y: 9 }, 2).unwrap().1);
    let (envs, cmds) = receive(&stream);
    assert_eq!(envs[0].event, InputEvent::MouseButton { button: MouseButton::Other(17), down: true });
    assert_eq!(cmds, vec![InjectCommand::MoveTo { x: 8, y: 9 }]);
}

#[test]
fn move_press_release_end_to_end() {
    let mut s = Sender::new();
    let mut stream = Vec::new();
    for raw in [
        RawEvent::MouseMove { x: 100, y: 200 },
        RawEvent::ButtonPress(RawButton::Left),
        RawEvent::ButtonRelease(RawButton::Left),
    ] {
        stream.extend(s.prepare(raw, now_millis()).unwrap().1);
    }
    let (_, cmds) = receive(&stream);
    assert_eq!(
        cmds,
        vec![
            InjectCommand::MoveTo { x: 100, y: 200 },
            InjectCommand::SetButton { button: InjectButton::Left, pressed: true },
            InjectCommand::SetButton { button: InjectButton::Left, pressed: false },
        ]
    );
}

#[test]
fn millis_drop_the_sub_millisecond_rest() {
    assert_eq!(millis_of(0, 0), 0);
    assert_eq!(millis_of(2, 3_500_000), 2003);
    assert_eq!(millis_of(1_700_000_000, 999_999_999), 1_700_000_000_999);
    assert_eq!(millis_of(u64::MAX, 999_999_999), u64::MAX as u128 * 1000 + 999);
}
