//! The binary encoding of an `EventEnvelope`.
//!
//! Layout, all integers little-endian and fixed-width:
//!
//! ```text
//! envelope := ts_millis:u128 seq:u64 event
//! event    := tag:u32 (0 = MouseMove, 1 = MouseButton) fields
//!   MouseMove   := x:i32 y:i32 (two's complement)
//!   MouseButton := button down:u8 (0 = release, 1 = press)
//! button   := tag:u32 (0 = Left, 1 = Right, 2 = Middle, 3 = Other) [code:u8 for Other]
//! ```
//!
//! Tags are never renumbered: a new variant takes a new tag, so existing
//! encodings stay as they are.
use vstd::prelude::*;
use crate::bytes::{
    le_bytes, le_value, lemma_le_bytes_len, lemma_le_canonical, lemma_le_round_trip,
    lemma_le_value_bound, lemma_pow256_values, push_le, read_le,
};
use crate::event::{EventEnvelope, InputEvent, MouseButton};

verus! {

pub const TAG_MOUSE_MOVE: u32 = 0;

pub const TAG_MOUSE_BUTTON: u32 = 1;

pub const TAG_LEFT: u32 = 0;

pub const TAG_RIGHT: u32 = 1;

pub const TAG_MIDDLE: u32 = 2;

pub const TAG_OTHER: u32 = 3;

/// Length of the longest encoding, that of a pointer move.
pub const MAX_ENCODED_LEN: usize = 36;

/// The two's complement bit pattern of `x`, as a number below 2^32.
pub open spec fn i32_bits(x: i32) -> nat {
    if x >= 0 {
        x as nat
    } else {
        (x + 0x1_0000_0000) as nat
    }
}

/// The `i32` whose two's complement bit pattern is `u`.
pub open spec fn i32_from_bits(u: nat) -> i32 {
    if u < 0x8000_0000 {
        u as i32
    } else {
        (u - 0x1_0000_0000) as i32
    }
}

pub open spec fn bool_byte(b: bool) -> u8 {
    if b {
        1
    } else {
        0
    }
}

spec fn parse_bool(b: u8) -> Option<bool> {
    if b == 0 {
        Some(false)
    } else if b == 1 {
        Some(true)
    } else {
        None
    }
}

pub open spec fn button_bytes(b: MouseButton) -> Seq<u8> {
    match b {
        MouseButton::Left => le_bytes(TAG_LEFT as nat, 4),
        MouseButton::Right => le_bytes(TAG_RIGHT as nat, 4),
        MouseButton::Middle => le_bytes(TAG_MIDDLE as nat, 4),
        MouseButton::Other(code) => le_bytes(TAG_OTHER as nat, 4) + seq![code],
    }
}

pub open spec fn event_bytes(e: InputEvent) -> Seq<u8> {
    match e {
        InputEvent::MouseMove { x, y } => le_bytes(TAG_MOUSE_MOVE as nat, 4) + le_bytes(
            i32_bits(x),
            4,
        ) + le_bytes(i32_bits(y), 4),
        InputEvent::MouseButton { button, down } => le_bytes(TAG_MOUSE_BUTTON as nat, 4)
            + button_bytes(button) + seq![bool_byte(down)],
    }
}

/// The encoding of an envelope.
pub open spec fn envelope_bytes(e: EventEnvelope) -> Seq<u8> {
    le_bytes(e.ts_millis as nat, 16) + le_bytes(e.seq as nat, 8) + event_bytes(e.event)
}

/// The button at the start of `s`, with the number of bytes it takes.
spec fn parse_button(s: Seq<u8>) -> Option<(MouseButton, nat)> {
    if s.len() < 4 {
        None
    } else {
        let tag = le_value(s.subrange(0, 4));
        if tag == TAG_LEFT {
            Some((MouseButton::Left, 4))
        } else if tag == TAG_RIGHT {
            Some((MouseButton::Right, 4))
        } else if tag == TAG_MIDDLE {
            Some((MouseButton::Middle, 4))
        } else if tag == TAG_OTHER && s.len() >= 5 {
            Some((MouseButton::Other(s[4]), 5))
        } else {
            None
        }
    }
}

/// The event at the start of `s`, with the number of bytes it takes.
spec fn parse_event(s: Seq<u8>) -> Option<(InputEvent, nat)> {
    if s.len() < 4 {
        None
    } else {
        let tag = le_value(s.subrange(0, 4));
        if tag == TAG_MOUSE_MOVE {
            if s.len() >= 12 {
                Some(
                    (
                        InputEvent::MouseMove {
                            x: i32_from_bits(le_value(s.subrange(4, 8))),
                            y: i32_from_bits(le_value(s.subrange(8, 12))),
                        },
                        12,
                    ),
                )
            } else {
                None
            }
        } else if tag == TAG_MOUSE_BUTTON {
            match parse_button(s.subrange(4, s.len() as int)) {
                Some((button, n)) => if s.len() > 4 + n {
                    match parse_bool(s[4 + n as int]) {
                        Some(down) => Some((InputEvent::MouseButton { button, down }, 5 + n)),
                        None => None,
                    }
                } else {
                    None
                },
                None => None,
            }
        } else {
            None
        }
    }
}

/// The envelope at the start of a buffer, read field by field.
spec fn parse_envelope(s: Seq<u8>) -> Option<EventEnvelope> {
    if s.len() < 24 {
        None
    } else {
        match parse_event(s.subrange(24, s.len() as int)) {
            Some((event, n)) => if 24 + n <= s.len() {
                Some(
                    EventEnvelope {
                        ts_millis: le_value(s.subrange(0, 16)) as u128,
                        seq: le_value(s.subrange(16, 24)) as u64,
                        event,
                    },
                )
            } else {
                None
            },
            None => None,
        }
    }
}

fn i32_to_bits(x: i32) -> (r: u32)
    ensures
        r as nat == i32_bits(x),
{
    if x >= 0 {
        x as u32
    } else {
        (x as i64 + 0x1_0000_0000i64) as u32
    }
}

fn i32_of_bits(u: u32) -> (r: i32)
    ensures
        r == i32_from_bits(u as nat),
{
    if u < 0x8000_0000 {
        u as i32
    } else {
        (u as i64 - 0x1_0000_0000i64) as i32
    }
}

fn push_button(out: &mut Vec<u8>, b: MouseButton)
    ensures
        final(out)@ == old(out)@ + button_bytes(b),
{
    match b {
        MouseButton::Left => push_le(out, TAG_LEFT as u128, 4),
        MouseButton::Right => push_le(out, TAG_RIGHT as u128, 4),
        MouseButton::Middle => push_le(out, TAG_MIDDLE as u128, 4),
        MouseButton::Other(code) => {
            let ghost start = out@;
            push_le(out, TAG_OTHER as u128, 4);
            out.push(code);
            proof {
                assert(out@ =~= start + button_bytes(b));
            }
        },
    }
}

/// Serialises an envelope. Total: every envelope has an encoding, of at
/// most `MAX_ENCODED_LEN` bytes.
pub fn encode_env(env: &EventEnvelope) -> (r: Vec<u8>)
    ensures
        r@ == envelope_bytes(*env),
        r@.len() <= MAX_ENCODED_LEN,
{
    let mut out: Vec<u8> = Vec::new();
    push_le(&mut out, env.ts_millis, 16);
    push_le(&mut out, env.seq as u128, 8);
    match env.event {
        InputEvent::MouseMove { x, y } => {
            push_le(&mut out, TAG_MOUSE_MOVE as u128, 4);
            push_le(&mut out, i32_to_bits(x) as u128, 4);
            push_le(&mut out, i32_to_bits(y) as u128, 4);
        },
        InputEvent::MouseButton { button, down } => {
            push_le(&mut out, TAG_MOUSE_BUTTON as u128, 4);
            push_button(&mut out, button);
            out.push(if down { 1u8 } else { 0u8 });
        },
    }
    proof {
        lemma_envelope_bytes_len(*env);
        assert(out@ =~= envelope_bytes(*env));
    }
    out
}

pub proof fn lemma_envelope_bytes_len(e: EventEnvelope)
    ensures
        33 <= envelope_bytes(e).len() <= MAX_ENCODED_LEN,
{
    lemma_le_bytes_len(e.ts_millis as nat, 16);
    lemma_le_bytes_len(e.seq as nat, 8);
    lemma_le_bytes_len(0, 4);
    lemma_le_bytes_len(1, 4);
    lemma_le_bytes_len(2, 4);
    lemma_le_bytes_len(3, 4);
    match e.event {
        InputEvent::MouseMove { x, y } => {
            lemma_le_bytes_len(i32_bits(x), 4);
            lemma_le_bytes_len(i32_bits(y), 4);
        },
        InputEvent::MouseButton { .. } => {},
    }
}

fn decode_button(buf: &[u8], pos: usize) -> (r: Option<(MouseButton, usize)>)
    requires
        pos <= buf@.len(),
    ensures
        match parse_button(buf@.subrange(pos as int, buf@.len() as int)) {
            Some((b, n)) => r == Some((b, n as usize)),
            None => r is None,
        },
{
    let len = buf.len();
    let ghost s = buf@.subrange(pos as int, len as int);
    if len - pos < 4 {
        return None;
    }
    let tag = read_le(buf, pos, 4);
    proof {
        assert(s.subrange(0, 4) =~= buf@.subrange(pos as int, pos + 4));
    }
    if tag == TAG_LEFT as u128 {
        Some((MouseButton::Left, 4))
    } else if tag == TAG_RIGHT as u128 {
        Some((MouseButton::Right, 4))
    } else if tag == TAG_MIDDLE as u128 {
        Some((MouseButton::Middle, 4))
    } else if tag == TAG_OTHER as u128 && len - pos >= 5 {
        Some((MouseButton::Other(buf[pos + 4]), 5))
    } else {
        None
    }
}

fn decode_event(buf: &[u8], pos: usize) -> (r: Option<(InputEvent, usize)>)
    requires
        pos <= buf@.len(),
    ensures
        match parse_event(buf@.subrange(pos as int, buf@.len() as int)) {
            Some((e, n)) => r == Some((e, n as usize)),
            None => r is None,
        },
{
    let len = buf.len();
    let ghost s = buf@.subrange(pos as int, len as int);
    if len - pos < 4 {
        return None;
    }
    let tag = read_le(buf, pos, 4);
    proof {
        assert(s.subrange(0, 4) =~= buf@.subrange(pos as int, pos + 4));
    }
    if tag == TAG_MOUSE_MOVE as u128 {
        if len - pos >= 12 {
            let xb = read_le(buf, pos + 4, 4);
            let yb = read_le(buf, pos + 8, 4);
            proof {
                assert(s.subrange(4, 8) =~= buf@.subrange(pos + 4, pos + 8));
                assert(s.subrange(8, 12) =~= buf@.subrange(pos + 8, pos + 12));
                lemma_le_value_bound(s.subrange(4, 8));
                lemma_le_value_bound(s.subrange(8, 12));
                lemma_pow256_values();
            }
            Some((InputEvent::MouseMove { x: i32_of_bits(xb as u32), y: i32_of_bits(yb as u32) }, 12))
        } else {
            None
        }
    } else if tag == TAG_MOUSE_BUTTON as u128 {
        proof {
            assert(s.subrange(4, s.len() as int) =~= buf@.subrange(pos + 4, len as int));
        }
        match decode_button(buf, pos + 4) {
            Some((button, n)) => {
                if len - pos > 4 + n {
                    let d = buf[pos + 4 + n];
                    if d == 0 {
                        Some((InputEvent::MouseButton { button, down: false }, 5 + n))
                    } else if d == 1 {
                        Some((InputEvent::MouseButton { button, down: true }, 5 + n))
                    } else {
                        None
                    }
                } else {
                    None
                }
            },
            None => None,
        }
    } else {
        None
    }
}

/// The buffer begins with the encoding of `e`.
pub open spec fn starts_with_encoding(s: Seq<u8>, e: EventEnvelope) -> bool {
    &&& envelope_bytes(e).len() <= s.len()
    &&& s.subrange(0, envelope_bytes(e).len() as int) == envelope_bytes(e)
}

/// What a buffer decodes to: the envelope whose encoding it begins with, if
/// there is one (there is at most one). Bytes after it are ignored.
pub open spec fn decoded(s: Seq<u8>) -> Option<EventEnvelope> {
    if exists|e: EventEnvelope| starts_with_encoding(s, e) {
        Some(choose|e: EventEnvelope| starts_with_encoding(s, e))
    } else {
        None
    }
}

/// Deserialises an envelope from the start of `buf`. `None` on a truncated
/// buffer, an unknown tag or a flag byte other than 0 or 1; bytes after the
/// envelope are ignored.
pub fn decode_env(buf: &[u8]) -> (r: Option<EventEnvelope>)
    ensures
        r == decoded(buf@),
        r matches Some(e) ==> starts_with_encoding(buf@, e),
        forall|e: EventEnvelope| #[trigger] starts_with_encoding(buf@, e) ==> r == Some(e),
{
    let r = decode_fields(buf);
    proof {
        lemma_parse_envelope_exact(buf@);
    }
    r
}

fn decode_fields(buf: &[u8]) -> (r: Option<EventEnvelope>)
    ensures
        r == parse_envelope(buf@),
{
    let len = buf.len();
    if len < 24 {
        return None;
    }
    let ts = read_le(buf, 0, 16);
    let seq = read_le(buf, 16, 8);
    proof {
        lemma_le_value_bound(buf@.subrange(16, 24));
        lemma_pow256_values();
    }
    match decode_event(buf, 24) {
        Some((event, n)) => if n <= len - 24 {
            Some(EventEnvelope { ts_millis: ts, seq: seq as u64, event })
        } else {
            None
        },
        None => None,
    }
}

proof fn lemma_tag_round_trip(tag: nat)
    requires
        tag < 4,
    ensures
        le_bytes(tag, 4).len() == 4,
        le_value(le_bytes(tag, 4)) == tag,
{
    lemma_pow256_values();
    lemma_le_bytes_len(tag, 4);
    lemma_le_round_trip(tag, 4);
}

proof fn lemma_parse_button_bytes(b: MouseButton, rest: Seq<u8>)
    ensures
        parse_button(button_bytes(b) + rest) == Some((b, button_bytes(b).len())),
{
    let s = button_bytes(b) + rest;
    let tag: nat = match b {
        MouseButton::Left => 0,
        MouseButton::Right => 1,
        MouseButton::Middle => 2,
        MouseButton::Other(_) => 3,
    };
    lemma_tag_round_trip(tag);
    assert(s.subrange(0, 4) =~= le_bytes(tag, 4));
}

proof fn lemma_parse_event_bytes(e: InputEvent, rest: Seq<u8>)
    ensures
        parse_event(event_bytes(e) + rest) == Some((e, event_bytes(e).len())),
{
    let s = event_bytes(e) + rest;
    lemma_pow256_values();
    match e {
        InputEvent::MouseMove { x, y } => {
            lemma_tag_round_trip(0);
            lemma_le_bytes_len(i32_bits(x), 4);
            lemma_le_bytes_len(i32_bits(y), 4);
            lemma_le_round_trip(i32_bits(x), 4);
            lemma_le_round_trip(i32_bits(y), 4);
            assert(s.subrange(0, 4) =~= le_bytes(0, 4));
            assert(s.subrange(4, 8) =~= le_bytes(i32_bits(x), 4));
            assert(s.subrange(8, 12) =~= le_bytes(i32_bits(y), 4));
        },
        InputEvent::MouseButton { button, down } => {
            lemma_tag_round_trip(1);
            assert(s.subrange(0, 4) =~= le_bytes(1, 4));
            let tail = seq![bool_byte(down)] + rest;
            assert(s.subrange(4, s.len() as int) =~= button_bytes(button) + tail);
            lemma_parse_button_bytes(button, tail);
            assert(s[4 + button_bytes(button).len() as int] == bool_byte(down));
        },
    }
}

proof fn lemma_parse_encoding_then(e: EventEnvelope, rest: Seq<u8>)
    ensures
        parse_envelope(envelope_bytes(e) + rest) == Some(e),
{
    let s = envelope_bytes(e) + rest;
    lemma_pow256_values();
    lemma_le_bytes_len(e.ts_millis as nat, 16);
    lemma_le_bytes_len(e.seq as nat, 8);
    lemma_le_round_trip(e.ts_millis as nat, 16);
    lemma_le_round_trip(e.seq as nat, 8);
    assert(s.subrange(0, 16) =~= le_bytes(e.ts_millis as nat, 16));
    assert(s.subrange(16, 24) =~= le_bytes(e.seq as nat, 8));
    assert(s.subrange(24, s.len() as int) =~= event_bytes(e.event) + rest);
    lemma_parse_event_bytes(e.event, rest);
}

proof fn lemma_prefix_canonical(s: Seq<u8>, lo: int, hi: int)
    requires
        0 <= lo <= hi <= s.len(),
    ensures
        le_bytes(le_value(s.subrange(lo, hi)), (hi - lo) as nat) == s.subrange(lo, hi),
{
    lemma_le_canonical(s.subrange(lo, hi));
}

proof fn lemma_parse_button_canonical(s: Seq<u8>)
    ensures
        parse_button(s) matches Some((b, n)) ==> n == button_bytes(b).len() && s.subrange(0, n as int)
            == button_bytes(b),
{
    if let Some((b, n)) = parse_button(s) {
        lemma_prefix_canonical(s, 0, 4);
        lemma_le_bytes_len(le_value(s.subrange(0, 4)), 4);
        assert(s.subrange(0, n as int) =~= button_bytes(b));
    }
}

proof fn lemma_parse_event_canonical(s: Seq<u8>)
    ensures
        parse_event(s) matches Some((e, n)) ==> n == event_bytes(e).len() && s.subrange(0, n as int)
            == event_bytes(e),
{
    if let Some((e, n)) = parse_event(s) {
        lemma_prefix_canonical(s, 0, 4);
        lemma_le_bytes_len(le_value(s.subrange(0, 4)), 4);
        match e {
            InputEvent::MouseMove { x, y } => {
                lemma_prefix_canonical(s, 4, 8);
                lemma_prefix_canonical(s, 8, 12);
                lemma_le_value_bound(s.subrange(4, 8));
                lemma_le_value_bound(s.subrange(8, 12));
                lemma_pow256_values();
                lemma_le_bytes_len(i32_bits(x), 4);
                lemma_le_bytes_len(i32_bits(y), 4);
                assert(s.subrange(0, n as int) =~= event_bytes(e));
            },
            InputEvent::MouseButton { button, down } => {
                let rest = s.subrange(4, s.len() as int);
                lemma_parse_button_canonical(rest);
                let m = button_bytes(button).len();
                assert(rest.subrange(0, m as int) =~= s.subrange(4, 4 + m as int));
                assert(s[4 + m as int] == bool_byte(down));
                assert(s.subrange(0, n as int) =~= event_bytes(e));
            },
        }
    }
}

proof fn lemma_parse_envelope_canonical(s: Seq<u8>)
    ensures
        parse_envelope(s) matches Some(e) ==> starts_with_encoding(s, e),
{
    if let Some(e) = parse_envelope(s) {
        lemma_pow256_values();
        lemma_prefix_canonical(s, 0, 16);
        lemma_prefix_canonical(s, 16, 24);
        lemma_le_value_bound(s.subrange(0, 16));
        lemma_le_value_bound(s.subrange(16, 24));
        let rest = s.subrange(24, s.len() as int);
        lemma_parse_event_canonical(rest);
        let n = event_bytes(e.event).len();
        assert(rest.subrange(0, n as int) =~= s.subrange(24, 24 + n as int));
        assert(s.subrange(0, 24 + n as int) =~= envelope_bytes(e));
    }
}

/// The field-by-field reading finds exactly the envelope whose encoding the
/// buffer begins with.
proof fn lemma_parse_envelope_exact(s: Seq<u8>)
    ensures
        parse_envelope(s) == decoded(s),
        parse_envelope(s) matches Some(e) ==> starts_with_encoding(s, e),
        forall|e: EventEnvelope| #[trigger] starts_with_encoding(s, e) ==> parse_envelope(s) == Some(e),
{
    lemma_parse_envelope_canonical(s);
    assert forall|e: EventEnvelope| #[trigger] starts_with_encoding(s, e) implies parse_envelope(s)
        == Some(e) by {
        let n = envelope_bytes(e).len() as int;
        assert(s =~= envelope_bytes(e) + s.subrange(n, s.len() as int));
        lemma_parse_encoding_then(e, s.subrange(n, s.len() as int));
    }
    if let Some(e) = parse_envelope(s) {
        let c = choose|e: EventEnvelope| starts_with_encoding(s, e);
        assert(starts_with_encoding(s, c));
    }
}

/// Decoding an encoding, followed by any bytes, gives back the envelope that
/// was encoded.
pub proof fn lemma_round_trip(e: EventEnvelope, rest: Seq<u8>)
    ensures
        decoded(envelope_bytes(e) + rest) == Some(e),
{
    lemma_parse_encoding_then(e, rest);
    lemma_parse_envelope_exact(envelope_bytes(e) + rest);
}

/// The encodings of two envelopes are never a prefix of each other unless
/// the envelopes are equal, so a buffer decodes to at most one envelope.
pub proof fn lemma_decoded_unique(s: Seq<u8>, e1: EventEnvelope, e2: EventEnvelope)
    requires
        starts_with_encoding(s, e1),
        starts_with_encoding(s, e2),
    ensures
        e1 == e2,
{
    lemma_parse_envelope_exact(s);
}

} // verus!
