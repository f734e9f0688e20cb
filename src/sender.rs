//! The sender's decisions for one connection: which captured events go out,
//! with which sequence number, as which bytes.
use vstd::prelude::*;
use crate::codec::{encode_env, envelope_bytes};
use crate::event::{event_of, map_event, EventEnvelope, InputEvent, RawEvent};
use crate::frame::{encode_frame, frame_bytes};

verus! {

/// Sequence numbering for one outbound connection. Numbers start at 1 and
/// go up by one for each event sent; `u64::MAX` is never handed out, so a
/// number is never reused.
pub struct Sender {
    next_seq: u64,
}

impl Sender {
    /// The number the next envelope will carry.
    pub closed spec fn next(&self) -> u64 {
        self.next_seq
    }

    pub closed spec fn wf(&self) -> bool {
        self.next_seq >= 1
    }

    pub fn new() -> (r: Sender)
        ensures
            r.wf(),
            r.next() == 1,
    {
        Sender { next_seq: 1 }
    }

    /// The sequence number the next envelope will carry.
    pub fn next_seq(&self) -> (r: u64)
        ensures
            r == self.next(),
    {
        self.next_seq
    }

    /// Turns one captured event into the envelope and the frame to write.
    /// Events the protocol does not carry give `None` and use no number;
    /// so does every event once the numbers have run out.
    pub fn prepare(&mut self, raw: RawEvent, ts_millis: u128) -> (r: Option<(EventEnvelope, Vec<u8>)>)
        requires
            old(self).wf(),
        ensures
            final(self).wf(),
            match event_of(raw) {
                None => r is None && final(self).next() == old(self).next(),
                Some(event) => if old(self).next() < u64::MAX {
                    &&& final(self).next() == old(self).next() + 1
                    &&& r matches Some((env, bytes))
                    &&& env == (EventEnvelope { ts_millis, seq: old(self).next(), event })
                    &&& bytes@ == frame_bytes(envelope_bytes(env))
                } else {
                    r is None && final(self).next() == old(self).next()
                },
            },
            r matches Some((env, _)) ==> sent_envelopes(seq![(raw, ts_millis)], old(self).next())
                == seq![env],
            r is None ==> sent_envelopes(seq![(raw, ts_millis)], old(self).next()) == Seq::<
                EventEnvelope,
            >::empty(),
    {
        proof {
            let one = seq![(raw, ts_millis)];
            assert(one.drop_first() =~= Seq::<(RawEvent, u128)>::empty());
            assert(sent_envelopes(Seq::<(RawEvent, u128)>::empty(), (self.next_seq + 1) as u64)
                =~= Seq::<EventEnvelope>::empty());
            assert(sent_envelopes(Seq::<(RawEvent, u128)>::empty(), self.next_seq)
                =~= Seq::<EventEnvelope>::empty());
        }
        match map_event(raw) {
            None => None,
            Some(event) => {
                if self.next_seq == u64::MAX {
                    return None;
                }
                let env = EventEnvelope { ts_millis, seq: self.next_seq, event };
                self.next_seq = self.next_seq + 1;
                let payload = encode_env(&env);
                let bytes = encode_frame(payload.as_slice());
                Some((env, bytes))
            },
        }
    }
}

/// The events of a run of captures that the protocol carries, in order.
pub open spec fn carried(caps: Seq<(RawEvent, u128)>) -> Seq<InputEvent>
    decreases caps.len(),
{
    if caps.len() == 0 {
        Seq::empty()
    } else {
        let head = match event_of(caps[0].0) {
            Some(event) => seq![event],
            None => Seq::empty(),
        };
        head + carried(caps.drop_first())
    }
}

/// The envelopes `prepare` hands out for a run of captures (each a raw
/// event and its timestamp), one call per capture, starting from the
/// number `next`.
pub open spec fn sent_envelopes(caps: Seq<(RawEvent, u128)>, next: u64) -> Seq<EventEnvelope>
    decreases caps.len(),
{
    if caps.len() == 0 {
        Seq::empty()
    } else {
        match event_of(caps[0].0) {
            Some(event) => if next < u64::MAX {
                seq![EventEnvelope { ts_millis: caps[0].1, seq: next, event }] + sent_envelopes(
                    caps.drop_first(),
                    (next + 1) as u64,
                )
            } else {
                sent_envelopes(caps.drop_first(), next)
            },
            None => sent_envelopes(caps.drop_first(), next),
        }
    }
}

/// Over a run of captures, the sender numbers the carried events
/// consecutively from `next`, in capture order, and skips the others,
/// as long as the numbers do not run out.
pub proof fn lemma_run_numbered_in_order(caps: Seq<(RawEvent, u128)>, next: u64)
    requires
        next + carried(caps).len() <= u64::MAX,
    ensures
        sent_envelopes(caps, next).len() == carried(caps).len(),
        forall|i: int|
            0 <= i < carried(caps).len() ==> (#[trigger] sent_envelopes(caps, next)[i]).seq == next
                + i && sent_envelopes(caps, next)[i].event == carried(caps)[i],
    decreases caps.len(),
{
    if caps.len() > 0 {
        let rest = caps.drop_first();
        match event_of(caps[0].0) {
            Some(event) => {
                lemma_run_numbered_in_order(rest, (next + 1) as u64);
                let env = EventEnvelope { ts_millis: caps[0].1, seq: next, event };
                assert forall|i: int| 0 <= i < carried(caps).len() implies (
                #[trigger] sent_envelopes(caps, next)[i]).seq == next + i && sent_envelopes(
                    caps,
                    next,
                )[i].event == carried(caps)[i] by {
                    if i > 0 {
                        assert(sent_envelopes(caps, next)[i] == sent_envelopes(
                            rest,
                            (next + 1) as u64,
                        )[i - 1]);
                        assert(carried(caps)[i] == carried(rest)[i - 1]);
                    }
                }
            },
            None => {
                assert(carried(caps) =~= carried(rest));
                lemma_run_numbered_in_order(rest, next);
            },
        }
    }
}

} // verus!
