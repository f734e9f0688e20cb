//! The receiver's decisions for one connection: which frames become events
//! for the injector, and what the injector does with each.
use vstd::prelude::*;
use crate::codec::{decoded, envelope_bytes, lemma_envelope_bytes_len, lemma_round_trip};
use crate::event::{EventEnvelope, InputEvent, MouseButton, RawEvent};
use crate::sender::{carried, lemma_run_numbered_in_order, sent_envelopes};
use crate::frame::{
    frames_bytes, lemma_frames_round_trip, parse_stream, payloads_fit, MAX_FRAME_LEN,
};

verus! {

/// The buttons the injector can press.
#[derive(Clone, Copy, Debug, PartialEq, Eq, Structural)]
pub enum InjectButton {
    Left,
    Right,
    Middle,
}

/// One call on the injector.
#[derive(Clone, Copy, Debug, PartialEq, Eq, Structural)]
pub enum InjectCommand {
    /// Move the pointer to an absolute position.
    MoveTo { x: i32, y: i32 },
    /// Press (`pressed`) or release a button.
    SetButton { button: InjectButton, pressed: bool },
}

pub open spec fn inject_button_of(b: MouseButton) -> Option<InjectButton> {
    match b {
        MouseButton::Left => Some(InjectButton::Left),
        MouseButton::Right => Some(InjectButton::Right),
        MouseButton::Middle => Some(InjectButton::Middle),
        MouseButton::Other(_) => None,
    }
}

pub open spec fn command_of(ev: InputEvent) -> Option<InjectCommand> {
    match ev {
        InputEvent::MouseMove { x, y } => Some(InjectCommand::MoveTo { x, y }),
        InputEvent::MouseButton { button, down } => match inject_button_of(button) {
            Some(b) => Some(InjectCommand::SetButton { button: b, pressed: down }),
            None => None,
        },
    }
}

/// The envelopes that decode from a run of payloads, in order; a payload
/// that does not decode is left out and the rest go on.
pub open spec fn decode_payloads(ps: Seq<Seq<u8>>) -> Seq<EventEnvelope>
    decreases ps.len(),
{
    if ps.len() == 0 {
        Seq::empty()
    } else {
        let head = match decoded(ps[0]) {
            Some(e) => seq![e],
            None => Seq::empty(),
        };
        head + decode_payloads(ps.drop_first())
    }
}

/// The envelopes a connection hands to its injector, in order, when the
/// peer sends the bytes `s`.
pub open spec fn received(s: Seq<u8>) -> Seq<EventEnvelope> {
    decode_payloads(parse_stream(s).0)
}

/// The injector's button for a protocol button; `None` for a button it has
/// no equivalent of.
pub fn inject_button(btn: MouseButton) -> (r: Option<InjectButton>)
    ensures
        r == inject_button_of(btn),
{
    match btn {
        MouseButton::Left => Some(InjectButton::Left),
        MouseButton::Right => Some(InjectButton::Right),
        MouseButton::Middle => Some(InjectButton::Middle),
        MouseButton::Other(_) => None,
    }
}

/// What the injector does for one event: an absolute move, a press or a
/// release, or nothing for a button it cannot press.
pub fn injector_command(ev: InputEvent) -> (r: Option<InjectCommand>)
    ensures
        r == command_of(ev),
{
    match ev {
        InputEvent::MouseMove { x, y } => Some(InjectCommand::MoveTo { x, y }),
        InputEvent::MouseButton { button, down } => match inject_button(button) {
            Some(b) => Some(InjectCommand::SetButton { button: b, pressed: down }),
            None => None,
        },
    }
}

/// Milliseconds between capture and now; 0 where the clocks disagree.
pub fn latency_millis(now: u128, ts_millis: u128) -> (r: u128)
    ensures
        now >= ts_millis ==> r == now - ts_millis,
        now < ts_millis ==> r == 0,
{
    if now >= ts_millis {
        now - ts_millis
    } else {
        0
    }
}

pub proof fn lemma_decode_payloads_append(a: Seq<Seq<u8>>, b: Seq<Seq<u8>>)
    ensures
        decode_payloads(a + b) == decode_payloads(a) + decode_payloads(b),
    decreases a.len(),
{
    if a.len() == 0 {
        assert(a + b =~= b);
        assert(decode_payloads(a) + decode_payloads(b) =~= decode_payloads(b));
    } else {
        assert((a + b).drop_first() =~= a.drop_first() + b);
        lemma_decode_payloads_append(a.drop_first(), b);
        let head = match decoded(a[0]) {
            Some(e) => seq![e],
            None => Seq::<EventEnvelope>::empty(),
        };
        assert(head + (decode_payloads(a.drop_first()) + decode_payloads(b)) =~= (head
            + decode_payloads(a.drop_first())) + decode_payloads(b));
    }
}

pub proof fn lemma_decode_encodings(es: Seq<EventEnvelope>)
    ensures
        decode_payloads(encodings(es)) == es,
    decreases es.len(),
{
    let ps = encodings(es);
    if es.len() == 0 {
        assert(decode_payloads(ps) =~= es);
    } else {
        lemma_round_trip(es[0], Seq::empty());
        assert(envelope_bytes(es[0]) + Seq::<u8>::empty() =~= envelope_bytes(es[0]));
        assert(ps.drop_first() =~= encodings(es.drop_first()));
        lemma_decode_encodings(es.drop_first());
        assert(seq![es[0]] + es.drop_first() =~= es);
    }
}

/// The payloads of a run of envelopes, one encoding each.
pub open spec fn encodings(es: Seq<EventEnvelope>) -> Seq<Seq<u8>> {
    es.map_values(|e: EventEnvelope| envelope_bytes(e))
}

/// The bytes a sender writes for a run of envelopes: one frame each.
pub open spec fn sent_stream(es: Seq<EventEnvelope>) -> Seq<u8> {
    frames_bytes(encodings(es))
}

/// Ordering: the envelopes sent on one connection reach the injector exactly
/// as sent and in the same order; so numbers that rise as they were sent
/// rise as they are injected.
pub proof fn lemma_delivered_in_order(es: Seq<EventEnvelope>)
    ensures
        received(sent_stream(es)) == es,
        (forall|i: int, j: int| 0 <= i < j < es.len() ==> es[i].seq < es[j].seq) ==> (forall|
            i: int,
            j: int,
        |
            0 <= i < j < es.len() ==> (#[trigger] received(sent_stream(es))[i]).seq < (
            #[trigger] received(sent_stream(es))[j]).seq),
{
    let ps = encodings(es);
    assert(payloads_fit(ps)) by {
        assert forall|i: int| 0 <= i < ps.len() implies (#[trigger] ps[i]).len()
            <= MAX_FRAME_LEN by {
            lemma_envelope_bytes_len(es[i]);
        }
    }
    lemma_frames_round_trip(ps);
    lemma_decode_encodings(es);
}

/// From capture to injection: over a run of captures on one connection, the
/// receiver gets the carried events in capture order, numbered 1, 2, ...
pub proof fn lemma_captures_arrive_numbered(caps: Seq<(RawEvent, u128)>)
    requires
        1 + carried(caps).len() <= u64::MAX,
    ensures
        received(sent_stream(sent_envelopes(caps, 1))).len() == carried(caps).len(),
        forall|i: int|
            0 <= i < carried(caps).len() ==> (#[trigger] received(
                sent_stream(sent_envelopes(caps, 1)),
            )[i]).seq == i + 1 && received(sent_stream(sent_envelopes(caps, 1)))[i].event
                == carried(caps)[i],
{
    lemma_run_numbered_in_order(caps, 1);
    lemma_delivered_in_order(sent_envelopes(caps, 1));
}

/// Drop-and-continue: a frame that does not decode is dropped alone; the
/// frames around it are delivered as if it had not been sent.
pub proof fn lemma_drop_and_continue(pre: Seq<Seq<u8>>, bad: Seq<u8>, post: Seq<Seq<u8>>)
    requires
        payloads_fit(pre),
        bad.len() <= MAX_FRAME_LEN,
        payloads_fit(post),
        decoded(bad) is None,
    ensures
        received(frames_bytes(pre + seq![bad] + post)) == received(frames_bytes(pre)) + received(
            frames_bytes(post),
        ),
{
    let all = pre + seq![bad] + post;
    assert(payloads_fit(all)) by {
        assert forall|i: int| 0 <= i < all.len() implies (#[trigger] all[i]).len()
            <= MAX_FRAME_LEN by {
            if i < pre.len() {
                assert(all[i] == pre[i]);
            } else if i == pre.len() {
                assert(all[i] == bad);
            } else {
                assert(all[i] == post[i - pre.len() - 1]);
            }
        }
    }
    lemma_frames_round_trip(all);
    lemma_frames_round_trip(pre);
    lemma_frames_round_trip(post);
    lemma_decode_payloads_append(pre + seq![bad], post);
    lemma_decode_payloads_append(pre, seq![bad]);
    assert(seq![bad].drop_first() =~= Seq::<Seq<u8>>::empty());
    assert(seq![bad][0] == bad);
    assert(decode_payloads(Seq::<Seq<u8>>::empty()) =~= Seq::<EventEnvelope>::empty());
    assert(decode_payloads(seq![bad]) =~= Seq::<EventEnvelope>::empty());
    assert(decode_payloads(pre) + Seq::<EventEnvelope>::empty() =~= decode_payloads(pre));
}

} // verus!
