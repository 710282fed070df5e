use vstd::prelude::*;
use crate::target_area::TargetArea;
use crate::types::{Button, Key};

verus! {

/// Simulated mouse click mistakes.
#[derive(Debug, PartialEq, Eq)]
pub enum ClickFailure {
    /// Click slightly outside the target area.
    Misclick,
    /// Click inside a designated decoy area (an adjacent button, say).
    MisclickTo(TargetArea),
    /// Press the wrong mouse button.
    WrongButton(Button),
    /// Click twice in quick succession.
    DoubleClick,
    /// Several mistakes in sequence.
    Compound(Vec<ClickFailure>),
}

/// Simulated mistakes in key combinations (shortcuts and chords).
#[derive(Debug, PartialEq, Eq)]
pub enum KeyCombinationFailure {
    /// Leave out one of the modifiers.
    MissedModifier(Key),
    /// Tap the wrong key while the modifiers are held.
    WrongKeyTap(Key),
    /// Let go of a modifier before the target key goes down.
    ReleasedModifierEarly(Key),
    /// Never release a modifier after the combination.
    ModifierStuck(Key),
    /// Several mistakes in sequence.
    Compound(Vec<KeyCombinationFailure>),
}

/// Simulated typing mistakes.
#[derive(Debug, Clone, Copy, PartialEq, Eq, Structural)]
pub enum KeyboardFailure {
    /// A character replaced by another letter, then erased and retyped.
    Typo,
    /// Two adjacent characters swapped, then both erased and retyped.
    Transposition,
    /// A key bouncing into two presses, the extra one erased.
    DoubleTap,
}

/// All failure categories in one type.
#[derive(Debug, PartialEq)]
pub enum FailureType {
    Click(ClickFailure),
    KeyCombination(KeyCombinationFailure),
    Keyboard(KeyboardFailure),
}

impl ClickFailure {
    /// Two failures describe the same mistake: the same variant with the same
    /// fields, areas and sub-failures compared by their contents.
    pub open spec fn same_as(self, other: ClickFailure) -> bool
        decreases self,
    {
        match self {
            ClickFailure::Misclick => other is Misclick,
            ClickFailure::MisclickTo(a) => other matches ClickFailure::MisclickTo(b) && a.same_as(b),
            ClickFailure::WrongButton(a) => other == ClickFailure::WrongButton(a),
            ClickFailure::DoubleClick => other is DoubleClick,
            ClickFailure::Compound(a) => other matches ClickFailure::Compound(b) && same_click_failures(
                a@,
                b@,
            ),
        }
    }

    /// A copy of this failure.
    pub fn duplicate(&self) -> (r: Self)
        ensures
            r.same_as(*self),
        decreases self,
    {
        match self {
            ClickFailure::Misclick => ClickFailure::Misclick,
            ClickFailure::MisclickTo(a) => ClickFailure::MisclickTo(a.duplicate()),
            ClickFailure::WrongButton(b) => ClickFailure::WrongButton(*b),
            ClickFailure::DoubleClick => ClickFailure::DoubleClick,
            ClickFailure::Compound(subs) => {
                let mut v: Vec<ClickFailure> = Vec::new();
                let mut i: usize = 0;
                while i < subs.len()
                    invariant
                        *self == ClickFailure::Compound(*subs),
                        i <= subs@.len(),
                        same_click_failures(v@, subs@.take(i as int)),
                    decreases subs@.len() - i,
                {
                    proof {
                        assert(decreases_to!(*self => self->Compound_0));
                        assert(decreases_to!(self->Compound_0 => self->Compound_0@));
                        assert(decreases_to!(self->Compound_0@ => subs@[i as int]));
                    }
                    let d = subs[i].duplicate();
                    let ghost before = v@;
                    v.push(d);
                    assert(v@.drop_last() =~= before);
                    assert(subs@.take(i + 1).drop_last() =~= subs@.take(i as int));
                    i = i + 1;
                }
                assert(subs@.take(i as int) =~= subs@);
                ClickFailure::Compound(v)
            },
        }
    }
}

/// Element-wise `same_as` of two sequences of click failures.
pub open spec fn same_click_failures(a: Seq<ClickFailure>, b: Seq<ClickFailure>) -> bool
    decreases a,
{
    if a.len() != b.len() {
        false
    } else if a.len() == 0 {
        true
    } else {
        same_click_failures(a.drop_last(), b.drop_last()) && a.last().same_as(b.last())
    }
}

impl Clone for ClickFailure {
    fn clone(&self) -> (r: Self)
        ensures
            r.same_as(*self),
    {
        self.duplicate()
    }
}

impl KeyCombinationFailure {
    /// Two failures describe the same mistake: the same variant with the same
    /// keys and sub-failures compared by their contents.
    pub open spec fn same_as(self, other: KeyCombinationFailure) -> bool
        decreases self,
    {
        match self {
            KeyCombinationFailure::Compound(a) => other matches KeyCombinationFailure::Compound(b)
                && same_combination_failures(a@, b@),
            _ => self == other,
        }
    }

    /// A copy of this failure.
    pub fn duplicate(&self) -> (r: Self)
        ensures
            r.same_as(*self),
        decreases self,
    {
        match self {
            KeyCombinationFailure::MissedModifier(k) => KeyCombinationFailure::MissedModifier(*k),
            KeyCombinationFailure::WrongKeyTap(k) => KeyCombinationFailure::WrongKeyTap(*k),
            KeyCombinationFailure::ReleasedModifierEarly(k) => {
                KeyCombinationFailure::ReleasedModifierEarly(*k)
            },
            KeyCombinationFailure::ModifierStuck(k) => KeyCombinationFailure::ModifierStuck(*k),
            KeyCombinationFailure::Compound(subs) => {
                let mut v: Vec<KeyCombinationFailure> = Vec::new();
                let mut i: usize = 0;
                while i < subs.len()
                    invariant
                        *self == KeyCombinationFailure::Compound(*subs),
                        i <= subs@.len(),
                        same_combination_failures(v@, subs@.take(i as int)),
                    decreases subs@.len() - i,
                {
                    proof {
                        assert(decreases_to!(*self => self->Compound_0));
                        assert(decreases_to!(self->Compound_0 => self->Compound_0@));
                        assert(decreases_to!(self->Compound_0@ => subs@[i as int]));
                    }
                    let d = subs[i].duplicate();
                    let ghost before = v@;
                    v.push(d);
                    assert(v@.drop_last() =~= before);
                    assert(subs@.take(i + 1).drop_last() =~= subs@.take(i as int));
                    i = i + 1;
                }
                assert(subs@.take(i as int) =~= subs@);
                KeyCombinationFailure::Compound(v)
            },
        }
    }
}

/// Element-wise `same_as` of two sequences of combination failures.
pub open spec fn same_combination_failures(
    a: Seq<KeyCombinationFailure>,
    b: Seq<KeyCombinationFailure>,
) -> bool
    decreases a,
{
    if a.len() != b.len() {
        false
    } else if a.len() == 0 {
        true
    } else {
        same_combination_failures(a.drop_last(), b.drop_last()) && a.last().same_as(b.last())
    }
}

impl Clone for KeyCombinationFailure {
    fn clone(&self) -> (r: Self)
        ensures
            r.same_as(*self),
    {
        self.duplicate()
    }
}

impl FailureType {
    /// Two failures of the same category describing the same mistake.
    pub open spec fn same_as(self, other: FailureType) -> bool {
        match self {
            FailureType::Click(a) => other matches FailureType::Click(b) && a.same_as(b),
            FailureType::KeyCombination(a) => other matches FailureType::KeyCombination(b)
                && a.same_as(b),
            FailureType::Keyboard(a) => other == FailureType::Keyboard(a),
        }
    }
}

impl Clone for FailureType {
    fn clone(&self) -> (r: Self)
        ensures
            r.same_as(*self),
    {
        match self {
            FailureType::Click(f) => FailureType::Click(f.duplicate()),
            FailureType::KeyCombination(f) => FailureType::KeyCombination(f.duplicate()),
            FailureType::Keyboard(f) => FailureType::Keyboard(*f),
        }
    }
}

} // verus!
