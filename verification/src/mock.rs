use vstd::prelude::*;
use crate::device::{InputDevice, Keyboard, Mouse};
use crate::error::HumioError;
use crate::types::{Button, Direction, Key, Point, ScrollAxis};

verus! {

/// An input event recorded by the mock device.
#[derive(Debug, PartialEq, Eq)]
pub enum InputEvent {
    MouseLocationQuery(Point),
    MouseMoved(Point),
    MouseMovedBy(Point),
    MouseClicked(Button),
    MouseHeld(Button),
    MouseReleased(Button),
    MouseScrolled { length: i32, axis: ScrollAxis },
    KeyAction { key: Key, action: Direction },
    TextTyped(String),
}

impl InputEvent {
    /// A copy equal to this event.
    pub fn duplicate(&self) -> (e: Self)
        ensures
            e == *self,
    {
        match self {
            InputEvent::MouseLocationQuery(p) => InputEvent::MouseLocationQuery(*p),
            InputEvent::MouseMoved(p) => InputEvent::MouseMoved(*p),
            InputEvent::MouseMovedBy(p) => InputEvent::MouseMovedBy(*p),
            InputEvent::MouseClicked(b) => InputEvent::MouseClicked(*b),
            InputEvent::MouseHeld(b) => InputEvent::MouseHeld(*b),
            InputEvent::MouseReleased(b) => InputEvent::MouseReleased(*b),
            InputEvent::MouseScrolled { length, axis } => InputEvent::MouseScrolled {
                length: *length,
                axis: *axis,
            },
            InputEvent::KeyAction { key, action } => InputEvent::KeyAction {
                key: *key,
                action: *action,
            },
            InputEvent::TextTyped(s) => InputEvent::TextTyped(s.clone()),
        }
    }
}

impl Clone for InputEvent {
    fn clone(&self) -> (e: Self)
        ensures
            e == *self,
    {
        self.duplicate()
    }
}

/// An in-memory input device that records every event it receives, for
/// tests. The cursor position is tracked; nothing reaches the system.
#[derive(Debug)]
pub struct MockDevice {
    location: Point,
    events: Vec<InputEvent>,
}

/// The key events among recorded events, oldest first.
pub open spec fn key_events(events: Seq<InputEvent>) -> Seq<(Key, Direction)>
    decreases events.len(),
{
    if events.len() == 0 {
        seq![]
    } else {
        match events.last() {
            InputEvent::KeyAction { key, action } => key_events(events.drop_last()).push(
                (key, action),
            ),
            _ => key_events(events.drop_last()),
        }
    }
}

impl MockDevice {
    /// The recorded events, oldest first.
    pub closed spec fn recorded(&self) -> Seq<InputEvent> {
        self.events@
    }

    /// The tracked cursor position.
    pub closed spec fn cursor(&self) -> Point {
        self.location
    }

    /// A device with the cursor at `initial_location` and nothing recorded.
    pub fn new(initial_location: Point) -> (d: Self)
        ensures
            d.cursor() == initial_location,
            d.recorded() == Seq::<InputEvent>::empty(),
    {
        MockDevice { location: initial_location, events: Vec::new() }
    }

    /// A copy of the recorded events, oldest first.
    pub fn get_events(&self) -> (events: Vec<InputEvent>)
        ensures
            events@ == self.recorded(),
    {
        let mut out: Vec<InputEvent> = Vec::new();
        let mut i: usize = 0;
        while i < self.events.len()
            invariant
                i <= self.events@.len(),
                out@ == self.events@.take(i as int),
            decreases self.events@.len() - i,
        {
            out.push(self.events[i].duplicate());
            assert(out@ =~= self.events@.take(i + 1));
            i = i + 1;
        }
        assert(out@ =~= self.events@);
        out
    }

    /// Forgets every recorded event; the cursor stays where it is.
    pub fn clear_events(&mut self)
        ensures
            final(self).recorded() == Seq::<InputEvent>::empty(),
            final(self).cursor() == old(self).cursor(),
    {
        self.events = Vec::new();
    }

    /// Puts the cursor at `point` without recording an event.
    pub fn set_location(&mut self, point: Point)
        ensures
            final(self).cursor() == point,
            final(self).recorded() == old(self).recorded(),
    {
        self.location = point;
    }
}

impl Clone for MockDevice {
    /// A separate device with the same cursor and the same recorded events.
    fn clone(&self) -> (d: Self)
        ensures
            d.cursor() == self.cursor(),
            d.recorded() == self.recorded(),
    {
        MockDevice { location: self.location, events: self.get_events() }
    }
}

impl Mouse for MockDevice {
    /// Records the query and answers with the tracked position.
    fn location(&mut self) -> (r: Result<Point, HumioError>)
        ensures
            r == Ok::<Point, HumioError>(old(self).cursor()),
            final(self).cursor() == old(self).cursor(),
            final(self).recorded() == old(self).recorded().push(
                InputEvent::MouseLocationQuery(old(self).cursor()),
            ),
    {
        let loc = self.location;
        self.events.push(InputEvent::MouseLocationQuery(loc));
        Ok(loc)
    }

    fn move_mouse(&mut self, point: Point) -> (r: Result<(), HumioError>)
        ensures
            r is Ok,
            final(self).cursor() == point,
            final(self).recorded() == old(self).recorded().push(InputEvent::MouseMoved(point)),
    {
        self.location = point;
        self.events.push(InputEvent::MouseMoved(point));
        Ok(())
    }

    /// Moves the tracked cursor by the offset and records it; an offset that
    /// would take the cursor outside `i32` is refused and nothing changes.
    fn move_mouse_by(&mut self, offset: Point) -> (r: Result<(), HumioError>)
        ensures
            ({
                let x = old(self).cursor().x + offset.x;
                let y = old(self).cursor().y + offset.y;
                if i32::MIN <= x <= i32::MAX && i32::MIN <= y <= i32::MAX {
                    &&& r is Ok
                    &&& final(self).cursor() == Point { x: x as i32, y: y as i32 }
                    &&& final(self).recorded() == old(self).recorded().push(
                        InputEvent::MouseMovedBy(offset),
                    )
                } else {
                    &&& r is Err
                    &&& final(self).cursor() == old(self).cursor()
                    &&& final(self).recorded() == old(self).recorded()
                }
            }),
    {
        let x: i64 = self.location.x as i64 + offset.x as i64;
        let y: i64 = self.location.y as i64 + offset.y as i64;
        if x < i32::MIN as i64 || x > i32::MAX as i64 || y < i32::MIN as i64 || y > i32::MAX as i64 {
            return Err(HumioError::Backend("cursor offset leaves the coordinate range".to_string()));
        }
        self.location = Point { x: x as i32, y: y as i32 };
        self.events.push(InputEvent::MouseMovedBy(offset));
        Ok(())
    }

    fn click(&mut self, button: Button) -> (r: Result<(), HumioError>)
        ensures
            r is Ok,
            final(self).cursor() == old(self).cursor(),
            final(self).recorded() == old(self).recorded().push(InputEvent::MouseClicked(button)),
    {
        self.events.push(InputEvent::MouseClicked(button));
        Ok(())
    }

    fn hold(&mut self, button: Button) -> (r: Result<(), HumioError>)
        ensures
            r is Ok,
            final(self).cursor() == old(self).cursor(),
            final(self).recorded() == old(self).recorded().push(InputEvent::MouseHeld(button)),
    {
        self.events.push(InputEvent::MouseHeld(button));
        Ok(())
    }

    fn release(&mut self, button: Button) -> (r: Result<(), HumioError>)
        ensures
            r is Ok,
            final(self).cursor() == old(self).cursor(),
            final(self).recorded() == old(self).recorded().push(InputEvent::MouseReleased(button)),
    {
        self.events.push(InputEvent::MouseReleased(button));
        Ok(())
    }

    fn scroll(&mut self, length: i32, axis: ScrollAxis) -> (r: Result<(), HumioError>)
        ensures
            r is Ok,
            final(self).cursor() == old(self).cursor(),
            final(self).recorded() == old(self).recorded().push(
                InputEvent::MouseScrolled { length, axis },
            ),
    {
        self.events.push(InputEvent::MouseScrolled { length, axis });
        Ok(())
    }
}

impl Keyboard for MockDevice {
    /// The mock keeps every event, so it keeps a log of the key events.
    open spec fn keeps_key_log() -> bool {
        true
    }

    /// The key events among the recorded events.
    open spec fn requested_keys(&self) -> Seq<(Key, Direction)> {
        key_events(self.recorded())
    }

    fn key(&mut self, key: Key, action: Direction) -> (r: Result<(), HumioError>)
        ensures
            r is Ok,
            final(self).cursor() == old(self).cursor(),
            final(self).recorded() == old(self).recorded().push(
                InputEvent::KeyAction { key, action },
            ),
    {
        let ghost before = self.events@;
        self.events.push(InputEvent::KeyAction { key, action });
        assert(self.events@.drop_last() =~= before);
        Ok(())
    }

    /// Records the text as typed.
    fn text(&mut self, text: &str) -> (r: Result<(), HumioError>)
        ensures
            r is Ok,
            final(self).cursor() == old(self).cursor(),
            final(self).recorded().len() == old(self).recorded().len() + 1,
            final(self).recorded().drop_last() == old(self).recorded(),
            final(self).recorded().last() matches InputEvent::TextTyped(t) && t@ == text@,
    {
        let ghost before = self.events@;
        self.events.push(InputEvent::TextTyped(text.to_owned()));
        assert(self.events@.drop_last() =~= before);
        Ok(())
    }
}

impl InputDevice for MockDevice {

}

} // verus!
