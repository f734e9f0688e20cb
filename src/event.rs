//! The platform-independent input events that travel over the link, and the
//! mapping from the capture source's raw events onto them.
use vstd::prelude::*;

verus! {

/// A mouse button. `Other` keeps the raw code of a button that has no name
/// here, so that nothing is lost between the two machines.
#[derive(Clone, Copy, Debug, PartialEq, Eq, Structural)]
pub enum MouseButton {
    Left,
    Right,
    Middle,
    Other(u8),
}

/// One input event. Coordinates are absolute and may be negative on
/// multi-monitor layouts.
#[derive(Clone, Copy, Debug, PartialEq, Eq, Structural)]
pub enum InputEvent {
    MouseMove { x: i32, y: i32 },
    MouseButton { button: MouseButton, down: bool },
}

/// An event with the metadata the sender attaches at capture time.
#[derive(Clone, Copy, Debug, PartialEq, Eq, Structural)]
pub struct EventEnvelope {
    /// Milliseconds since the UNIX epoch when the event was captured.
    pub ts_millis: u128,
    /// Per-connection counter, starting at 1 and strictly increasing.
    pub seq: u64,
    pub event: InputEvent,
}

/// A button as the capture source reports it.
#[derive(Clone, Copy, Debug, PartialEq, Eq, Structural)]
pub enum RawButton {
    Left,
    Right,
    Middle,
    Unknown(u8),
}

/// What the capture source reports, with the pointer position already
/// rounded to whole pixels.
#[derive(Clone, Copy, Debug, PartialEq, Eq, Structural)]
pub enum RawEvent {
    MouseMove { x: i32, y: i32 },
    ButtonPress(RawButton),
    ButtonRelease(RawButton),
    /// Any event the protocol does not carry (keys, wheel).
    Other,
}

pub open spec fn button_of(b: RawButton) -> MouseButton {
    match b {
        RawButton::Left => MouseButton::Left,
        RawButton::Right => MouseButton::Right,
        RawButton::Middle => MouseButton::Middle,
        RawButton::Unknown(code) => MouseButton::Other(code),
    }
}

pub open spec fn event_of(ev: RawEvent) -> Option<InputEvent> {
    match ev {
        RawEvent::MouseMove { x, y } => Some(InputEvent::MouseMove { x, y }),
        RawEvent::ButtonPress(b) => Some(InputEvent::MouseButton { button: button_of(b), down: true }),
        RawEvent::ButtonRelease(b) => Some(
            InputEvent::MouseButton { button: button_of(b), down: false },
        ),
        RawEvent::Other => None,
    }
}

/// Maps a raw button onto the protocol's buttons. Total: a code without a
/// name is kept as `Other`.
pub fn map_button(btn: RawButton) -> (r: MouseButton)
    ensures
        r == button_of(btn),
{
    match btn {
        RawButton::Left => MouseButton::Left,
        RawButton::Right => MouseButton::Right,
        RawButton::Middle => MouseButton::Middle,
        RawButton::Unknown(code) => MouseButton::Other(code),
    }
}

/// Maps a raw event onto an `InputEvent`; events the protocol does not carry
/// give `None`.
pub fn map_event(ev: RawEvent) -> (r: Option<InputEvent>)
    ensures
        r == event_of(ev),
{
    match ev {
        RawEvent::MouseMove { x, y } => Some(InputEvent::MouseMove { x, y }),
        RawEvent::ButtonPress(b) => Some(InputEvent::MouseButton { button: map_button(b), down: true }),
        RawEvent::ButtonRelease(b) => Some(
            InputEvent::MouseButton { button: map_button(b), down: false },
        ),
        RawEvent::Other => None,
    }
}

} // verus!
