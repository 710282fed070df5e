use vstd::prelude::*;
use crate::error::HumioError;
use crate::types::{Button, Direction, Key, Point, ScrollAxis};

verus! {

/// A mouse that can be moved, clicked and scrolled.
pub trait Mouse {
    /// The cursor's position (asking may be recorded, hence `&mut`).
    fn location(&mut self) -> Result<Point, HumioError>;

    /// Puts the cursor at an absolute position.
    fn move_mouse(&mut self, point: Point) -> Result<(), HumioError>;

    /// Moves the cursor by an offset.
    fn move_mouse_by(&mut self, offset: Point) -> Result<(), HumioError>;

    /// Presses and releases a button.
    fn click(&mut self, button: Button) -> Result<(), HumioError>;

    /// Presses a button and keeps it down.
    fn hold(&mut self, button: Button) -> Result<(), HumioError>;

    /// Lets a held button go.
    fn release(&mut self, button: Button) -> Result<(), HumioError>;

    /// Scrolls by `length` notches along the axis.
    fn scroll(&mut self, length: i32, axis: ScrollAxis) -> Result<(), HumioError>;
}

/// The key events of pressing each modifier in order.
pub open spec fn press_each(mods: Seq<Key>) -> Seq<(Key, Direction)>
    decreases mods.len(),
{
    if mods.len() == 0 {
        seq![]
    } else {
        press_each(mods.drop_last()).push((mods.last(), Direction::Press))
    }
}

/// The key events of releasing each modifier, the last one first.
pub open spec fn release_each_reversed(mods: Seq<Key>) -> Seq<(Key, Direction)>
    decreases mods.len(),
{
    if mods.len() == 0 {
        seq![]
    } else {
        seq![(mods.last(), Direction::Release)] + release_each_reversed(mods.drop_last())
    }
}

/// The key events of a plain combination: the modifiers pressed in order,
/// the key clicked, the modifiers released in reverse order.
pub open spec fn combination_events(mods: Seq<Key>, key: Key) -> Seq<(Key, Direction)> {
    press_each(mods) + seq![(key, Direction::Click)] + release_each_reversed(mods)
}

proof fn lemma_press_each(mods: Seq<Key>)
    ensures
        press_each(mods).len() == mods.len(),
        forall|i: int| 0 <= i < mods.len() ==> #[trigger] press_each(mods)[i] == (mods[i], Direction::Press),
    decreases mods.len(),
{
    if mods.len() > 0 {
        let m = mods.drop_last();
        lemma_press_each(m);
        assert forall|i: int| 0 <= i < mods.len() implies #[trigger] press_each(mods)[i] == (
            mods[i],
            Direction::Press,
        ) by {
            if i < m.len() {
                assert(press_each(mods)[i] == press_each(m)[i]);
                assert(m[i] == mods[i]);
            }
        }
    }
}

proof fn lemma_release_each(mods: Seq<Key>)
    ensures
        release_each_reversed(mods).len() == mods.len(),
        forall|r: int|
            0 <= r < mods.len() ==> #[trigger] release_each_reversed(mods)[r] == (
                mods[mods.len() - 1 - r],
                Direction::Release,
            ),
    decreases mods.len(),
{
    if mods.len() > 0 {
        let m = mods.drop_last();
        let head = seq![(mods.last(), Direction::Release)];
        lemma_release_each(m);
        assert forall|r: int| 0 <= r < mods.len() implies #[trigger] release_each_reversed(mods)[r] == (
            mods[mods.len() - 1 - r],
            Direction::Release,
        ) by {
            if r == 0 {
                assert(release_each_reversed(mods)[r] == head[0]);
            } else {
                assert(release_each_reversed(mods)[r] == release_each_reversed(m)[r - 1]);
                assert(m[m.len() - 1 - (r - 1)] == mods[mods.len() - 1 - r]);
            }
        }
    }
}

/// The events of a plain combination, one by one: modifier `i` pressed at
/// `i`, the key clicked after the presses, modifier `n - 1 - r` released at
/// `n + 1 + r`.
proof fn lemma_combination_events(mods: Seq<Key>, key: Key)
    ensures
        combination_events(mods, key).len() == 2 * mods.len() + 1,
        forall|i: int|
            0 <= i < mods.len() ==> #[trigger] combination_events(mods, key)[i] == (
                mods[i],
                Direction::Press,
            ),
        combination_events(mods, key)[mods.len() as int] == (key, Direction::Click),
        forall|r: int|
            0 <= r < mods.len() ==> #[trigger] combination_events(mods, key)[mods.len() + 1 + r] == (
                mods[mods.len() - 1 - r],
                Direction::Release,
            ),
{
    lemma_press_each(mods);
    lemma_release_each(mods);
    let n = mods.len() as int;
    let a = press_each(mods);
    let c = seq![(key, Direction::Click)];
    let b = release_each_reversed(mods);
    assert forall|i: int| 0 <= i < n implies #[trigger] combination_events(mods, key)[i] == (
        mods[i],
        Direction::Press,
    ) by {
        assert((a + c)[i] == a[i]);
    }
    assert((a + c)[n] == c[0]);
    assert forall|r: int| 0 <= r < n implies #[trigger] combination_events(mods, key)[n + 1 + r] == (
        mods[n - 1 - r],
        Direction::Release,
    ) by {
        assert(((a + c) + b)[n + 1 + r] == b[r]);
    }
}

/// A keyboard that can press keys and type text.
pub trait Keyboard {
    /// Whether this keyboard keeps a log of the key events asked of it; a
    /// keyboard that keeps none promises nothing about `requested_keys`.
    open spec fn keeps_key_log() -> bool {
        false
    }

    /// The key events asked of this keyboard through `key`, oldest first,
    /// whether or not sending them succeeded (when it keeps a log).
    open spec fn requested_keys(&self) -> Seq<(Key, Direction)> {
        Seq::empty()
    }

    /// Sends a press, release or click of a key; on a keyboard that keeps a
    /// log, the event is the last one requested, whatever the outcome.
    fn key(&mut self, key: Key, action: Direction) -> (r: Result<(), HumioError>)
        ensures
            Self::keeps_key_log() ==> final(self).requested_keys() == old(
                self,
            ).requested_keys().push((key, action)),
    ;

    /// Types text.
    fn text(&mut self, text: &str) -> Result<(), HumioError>;

    /// Presses the modifiers in order, clicks the key, and releases the
    /// modifiers in reverse order, stopping at the first error. As provided
    /// here, on a keyboard that keeps a log, a success has requested exactly
    /// those key events, and a failure has requested them up to and
    /// including the one that failed, and no further.
    fn key_combination(&mut self, modifiers: &[Key], key: Key) -> (r: Result<(), HumioError>)
        default_ensures
            Self::keeps_key_log() && r is Ok ==> final(self).requested_keys() == old(
                self,
            ).requested_keys() + combination_events(modifiers@, key),
            Self::keeps_key_log() && r is Err ==> exists|k: int|
                0 <= k < combination_events(modifiers@, key).len() && final(self).requested_keys()
                    == old(self).requested_keys() + #[trigger] combination_events(
                    modifiers@,
                    key,
                ).take(k + 1),
    {
        let ghost start = self.requested_keys();
        let ghost ev = combination_events(modifiers@, key);
        proof {
            lemma_combination_events(modifiers@, key);
        }
        let n = modifiers.len();
        let mut i: usize = 0;
        while i < n
            invariant
                n == modifiers@.len(),
                i <= n,
                ev == combination_events(modifiers@, key),
                ev.len() == 2 * n + 1,
                forall|k: int| 0 <= k < n ==> #[trigger] ev[k] == (modifiers@[k], Direction::Press),
                Self::keeps_key_log() ==> self.requested_keys() == start + ev.take(i as int),
                start == old(self).requested_keys(),
            decreases n - i,
        {
            match self.key(modifiers[i], Direction::Press) {
                Ok(()) => {},
                Err(e) => {
                    assert(ev.take(i + 1) =~= ev.take(i as int).push(ev[i as int]));
                    assert(combination_events(modifiers@, key).take(i + 1) == ev.take(i + 1));
                    return Err(e);
                },
            }
            assert(ev.take(i + 1) =~= ev.take(i as int).push(ev[i as int]));
            i = i + 1;
        }
        let clicked = self.key(key, Direction::Click);
        assert(ev.take(n + 1) =~= ev.take(n as int).push(ev[n as int]));
        match clicked {
            Ok(()) => {},
            Err(e) => {
                assert(combination_events(modifiers@, key).take(n + 1) == ev.take(n + 1));
                return Err(e);
            },
        }
        let mut j: usize = n;
        while j > 0
            invariant
                n == modifiers@.len(),
                j <= n,
                ev == combination_events(modifiers@, key),
                ev.len() == 2 * n + 1,
                forall|r: int|
                    0 <= r < n ==> #[trigger] ev[n + 1 + r] == (
                        modifiers@[n - 1 - r],
                        Direction::Release,
                    ),
                Self::keeps_key_log() ==> self.requested_keys() == start + ev.take(n + 1 + (n - j)),
                start == old(self).requested_keys(),
            decreases j,
        {
            j = j - 1;
            match self.key(modifiers[j], Direction::Release) {
                Ok(()) => {},
                Err(e) => {
                    assert(ev.take(n + 1 + (n - j)) =~= ev.take(n + 1 + (n - 1 - j)).push(
                        ev[n + 1 + (n - 1 - j)],
                    ));
                    assert(combination_events(modifiers@, key).take(n + 1 + (n - 1 - j) + 1) == ev.take(
                        n + 1 + (n - j),
                    ));
                    return Err(e);
                },
            }
            assert(ev[n + 1 + (n - 1 - j)] == (modifiers@[j as int], Direction::Release));
            assert(ev.take(n + 1 + (n - j)) =~= ev.take(n + 1 + (n - 1 - j)).push(
                ev[n + 1 + (n - 1 - j)],
            ));
        }
        assert(ev.take(2 * n + 1) =~= ev);
        Ok(())
    }
}

/// A device that is both a mouse and a keyboard.
pub trait InputDevice: Mouse + Keyboard {

}

} // verus!
