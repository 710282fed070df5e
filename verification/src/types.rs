use vstd::prelude::*;
use std::time::Duration;

verus! {

/// The duration that `Duration::from_millis` builds from a millisecond count.
pub uninterp spec fn duration_of_millis(ms: u64) -> Duration;

/// Calls `std::time::Duration::from_millis`; its result is named
/// `duration_of_millis` of the argument (the function is a plain constructor
/// and depends on nothing else).
#[verifier::external_body]
fn duration_from_millis(ms: u64) -> (d: Duration)
    ensures
        d == duration_of_millis(ms),
{
    Duration::from_millis(ms)
}

/// A screen coordinate in pixels.
#[derive(Debug, Clone, Copy, PartialEq, Eq, Structural)]
pub struct Point {
    pub x: i32,
    pub y: i32,
}

impl Point {
    /// Builds a point from its two coordinates.
    pub fn new(x: i32, y: i32) -> (p: Self)
        ensures
            p.x == x,
            p.y == y,
    {
        Point { x, y }
    }
}

/// A delay measured in whole milliseconds.
#[derive(Debug, Clone, Copy, PartialEq, Eq, PartialOrd, Ord, Structural)]
pub struct DelayMs(pub u32);

impl DelayMs {
    /// The delay as a `Duration` of the same number of milliseconds.
    pub fn to_duration(self) -> (d: Duration)
        ensures
            d == duration_of_millis(self.0 as u64),
    {
        duration_from_millis(self.0 as u64)
    }
}

/// One step of a mouse path: where the cursor goes and how long to wait after it.
#[derive(Debug, Clone, Copy, PartialEq, Eq, Structural)]
pub struct PathStep {
    pub point: Point,
    pub delay: DelayMs,
}

/// A position reached by the WindMouse physics walk, and whether the walk was
/// already within 15 px of its target when it took that step.
#[derive(Debug, Clone, Copy, PartialEq, Eq, Structural)]
pub struct GlidePoint {
    pub point: Point,
    pub near_target: bool,
}

/// The axis along which a scroll event moves.
#[derive(Debug, Clone, Copy, PartialEq, Eq, Structural)]
pub enum ScrollAxis {
    Horizontal,
    Vertical,
}

/// A mouse button.
#[derive(Debug, Clone, Copy, PartialEq, Eq, Hash, Structural)]
pub enum Button {
    Left,
    Middle,
    Right,
    Back,
    Forward,
    ScrollUp,
    ScrollDown,
    ScrollLeft,
    ScrollRight,
}

/// Whether a key or button goes down, comes up, or does both.
#[derive(Debug, Clone, Copy, PartialEq, Eq, Hash, Structural)]
pub enum Direction {
    Press,
    Release,
    Click,
}

/// A key on the keyboard. Named keys cover the modifiers and the usual
/// navigation and editing keys; `Unicode` types a character and `Other`
/// names a platform key code.
#[derive(Debug, Clone, Copy, PartialEq, Eq, Hash, Structural)]
pub enum Key {
    Alt,
    Backspace,
    CapsLock,
    Control,
    Delete,
    DownArrow,
    End,
    Escape,
    F1,
    F2,
    F3,
    F4,
    F5,
    F6,
    F7,
    F8,
    F9,
    F10,
    F11,
    F12,
    Home,
    Insert,
    LControl,
    LeftArrow,
    LShift,
    Meta,
    Option,
    PageDown,
    PageUp,
    RControl,
    Return,
    RightArrow,
    RShift,
    Shift,
    Space,
    Tab,
    UpArrow,
    Unicode(char),
    Other(u32),
}

} // verus!
