//! Wire protocol and pipeline decisions for relaying pointer input from one
//! machine to another over a TCP link.
//!
//! A sender turns each captured event into an envelope (timestamp, sequence
//! number, event), encodes it and writes it as one length-prefixed frame. A
//! receiver splits its stream into frames, decodes each, drops those that do
//! not decode, and hands the rest, in order, to an injector.
pub mod bytes;
pub mod clock;
pub mod codec;
pub mod event;
pub mod frame;
pub mod receiver;
pub mod sender;

pub use clock::{millis_of, now_millis};
pub use codec::{decode_env, encode_env};
pub use event::{map_button, map_event, EventEnvelope, InputEvent, MouseButton, RawButton, RawEvent};
pub use frame::{
    encode_frame, frame_length, split_frames, FrameError, FrameReader, HEADER_LEN, MAX_FRAME_LEN,
};
pub use receiver::{inject_button, injector_command, latency_millis, InjectButton, InjectCommand};
pub use sender::Sender;
