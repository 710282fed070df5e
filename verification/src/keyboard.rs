use vstd::prelude::*;
use crate::failures::KeyCombinationFailure;
use crate::types::{Direction, Key};

verus! {

/// One step of a keyboard plan, carried out in order by whoever drives the device.
#[derive(Debug, Clone, Copy, PartialEq, Eq, Structural)]
pub enum KeyAction {
    /// Send `Direction` for the key.
    Key(Key, Direction),
    /// Press a modifier of a combination; should the combination be cut short,
    /// the modifier is released again.
    GuardedPress(Key),
    /// Release the most recently guarded modifier (it leaves the guard before the release is sent).
    GuardedRelease(Key),
    /// Type one character.
    Type(char),
    /// Wait a uniformly drawn number of milliseconds in `min_ms..=max_ms`.
    Pause { min_ms: u64, max_ms: u64 },
    /// Run the caller's recovery routine inside a recovery context.
    Recover,
}

pub open spec fn pause(min_ms: u64, max_ms: u64) -> KeyAction {
    KeyAction::Pause { min_ms, max_ms }
}

/// Press, hold, release: how a key is tapped.
pub open spec fn tap_spec(key: Key, hold_min: u64, hold_max: u64) -> Seq<KeyAction> {
    seq![
        KeyAction::Key(key, Direction::Press),
        pause(hold_min, hold_max),
        KeyAction::Key(key, Direction::Release),
    ]
}

/// The guarded, staggered presses of the modifiers, in order.
pub open spec fn guarded_presses(mods: Seq<Key>) -> Seq<KeyAction>
    decreases mods.len(),
{
    if mods.len() == 0 {
        seq![]
    } else {
        guarded_presses(mods.drop_last()) + seq![
            KeyAction::GuardedPress(mods.last()),
            pause(15, 45),
        ]
    }
}

/// The staggered releases of the modifiers, last pressed first.
pub open spec fn guarded_releases(mods: Seq<Key>) -> Seq<KeyAction>
    decreases mods.len(),
{
    if mods.len() == 0 {
        seq![]
    } else {
        seq![pause(15, 45), KeyAction::GuardedRelease(mods.last())] + guarded_releases(
            mods.drop_last(),
        )
    }
}

/// A clean combination: modifiers down in order, the key tapped, modifiers up in reverse.
pub open spec fn normal_combination(mods: Seq<Key>, key: Key) -> Seq<KeyAction> {
    guarded_presses(mods) + tap_spec(key, 20, 60) + guarded_releases(mods)
}

/// How one action changes the set of held keys.
pub open spec fn held_step(h: Set<Key>, a: KeyAction) -> Set<Key> {
    match a {
        KeyAction::Key(k, Direction::Press) => h.insert(k),
        KeyAction::GuardedPress(k) => h.insert(k),
        KeyAction::Key(k, Direction::Release) => h.remove(k),
        KeyAction::GuardedRelease(k) => h.remove(k),
        _ => h,
    }
}

/// The set of keys held down after the actions, starting from `start`.
pub open spec fn held_after(start: Set<Key>, acts: Seq<KeyAction>) -> Set<Key>
    decreases acts.len(),
{
    if acts.len() == 0 {
        start
    } else {
        held_step(held_after(start, acts.drop_last()), acts.last())
    }
}

/// Running a plan in two parts holds the same keys as running it at once.
pub proof fn lemma_held_after_concat(start: Set<Key>, a: Seq<KeyAction>, b: Seq<KeyAction>)
    ensures
        held_after(start, a + b) == held_after(held_after(start, a), b),
    decreases b.len(),
{
    if b.len() == 0 {
        assert(a + b =~= a);
    } else {
        lemma_held_after_concat(start, a, b.drop_last());
        assert((a + b).drop_last() =~= a + b.drop_last());
        assert((a + b).last() == b.last());
    }
}

proof fn lemma_held_one(start: Set<Key>, x: KeyAction)
    ensures
        held_after(start, seq![x]) == held_step(start, x),
{
    assert(seq![x].drop_last() =~= Seq::<KeyAction>::empty());
    assert(held_after(start, Seq::<KeyAction>::empty()) == start);
    assert(seq![x].last() == x);
}

proof fn lemma_held_two(start: Set<Key>, x: KeyAction, y: KeyAction)
    ensures
        held_after(start, seq![x, y]) == held_step(held_step(start, x), y),
{
    assert(seq![x, y] =~= seq![x] + seq![y]);
    lemma_held_after_concat(start, seq![x], seq![y]);
    lemma_held_one(start, x);
    lemma_held_one(held_step(start, x), y);
}

proof fn lemma_held_three(start: Set<Key>, x: KeyAction, y: KeyAction, z: KeyAction)
    ensures
        held_after(start, seq![x, y, z]) == held_step(held_step(held_step(start, x), y), z),
{
    assert(seq![x, y, z] =~= seq![x, y] + seq![z]);
    lemma_held_after_concat(start, seq![x, y], seq![z]);
    lemma_held_two(start, x, y);
    lemma_held_one(held_step(held_step(start, x), y), z);
}

proof fn lemma_guarded_presses_held(start: Set<Key>, mods: Seq<Key>)
    ensures
        held_after(start, guarded_presses(mods)) =~= start + mods.to_set(),
    decreases mods.len(),
{
    if mods.len() > 0 {
        let m = mods.drop_last();
        let two = seq![KeyAction::GuardedPress(mods.last()), pause(15, 45)];
        lemma_guarded_presses_held(start, m);
        lemma_held_after_concat(start, guarded_presses(m), two);
        lemma_held_two(start + m.to_set(), two[0], two[1]);
        assert(mods =~= m.push(mods.last()));
        m.lemma_push_to_set_commute(mods.last());
    } else {
        assert(mods.to_set() =~= Set::empty());
    }
}

proof fn lemma_guarded_releases_held(start: Set<Key>, mods: Seq<Key>)
    ensures
        held_after(start, guarded_releases(mods)) =~= start - mods.to_set(),
    decreases mods.len(),
{
    if mods.len() > 0 {
        let m = mods.drop_last();
        let two = seq![pause(15, 45), KeyAction::GuardedRelease(mods.last())];
        lemma_held_after_concat(start, two, guarded_releases(m));
        lemma_held_two(start, two[0], two[1]);
        lemma_guarded_releases_held(start.remove(mods.last()), m);
        assert(mods =~= m.push(mods.last()));
        m.lemma_push_to_set_commute(mods.last());
    } else {
        assert(mods.to_set() =~= Set::empty());
    }
}

proof fn lemma_tap_held(start: Set<Key>, key: Key, lo: u64, hi: u64)
    ensures
        held_after(start, tap_spec(key, lo, hi)) == start.insert(key).remove(key),
{
    let t = tap_spec(key, lo, hi);
    lemma_held_three(start, t[0], t[1], t[2]);
}

/// A clean combination leaves no modifier and not the key held: whatever was
/// held before stays held, except the modifiers and the key themselves. While
/// the key goes down, every modifier is held.
pub proof fn lemma_normal_combination_releases_all(start: Set<Key>, mods: Seq<Key>, key: Key)
    ensures
        held_after(start, normal_combination(mods, key)) =~= start - mods.to_set() - set![key],
        held_after(start, guarded_presses(mods) + seq![KeyAction::Key(key, Direction::Press)])
            =~= start + mods.to_set() + set![key],
{
    let p = guarded_presses(mods);
    let t = tap_spec(key, 20, 60);
    let r = guarded_releases(mods);
    lemma_held_after_concat(start, p + t, r);
    lemma_held_after_concat(start, p, t);
    lemma_guarded_presses_held(start, mods);
    lemma_tap_held(start + mods.to_set(), key, 20, 60);
    lemma_guarded_releases_held((start + mods.to_set()).insert(key).remove(key), mods);
    lemma_held_after_concat(start, p, seq![KeyAction::Key(key, Direction::Press)]);
    lemma_held_one(start + mods.to_set(), KeyAction::Key(key, Direction::Press));
}

/// The plan of a clean, staggered key combination: each modifier pressed in
/// order with a 15–45 ms stagger, the key held 20–60 ms, the modifiers
/// released in reverse order with the same stagger.
pub fn key_combination_normal_plan(modifiers: &[Key], key: Key) -> (plan: Vec<KeyAction>)
    ensures
        plan@ == normal_combination(modifiers@, key),
{
    let mut plan: Vec<KeyAction> = Vec::new();
    let n = modifiers.len();
    let mut i: usize = 0;
    while i < n
        invariant
            n == modifiers@.len(),
            i <= n,
            plan@ == guarded_presses(modifiers@.take(i as int)),
        decreases n - i,
    {
        plan.push(KeyAction::GuardedPress(modifiers[i]));
        plan.push(KeyAction::Pause { min_ms: 15, max_ms: 45 });
        assert(modifiers@.take(i + 1).drop_last() =~= modifiers@.take(i as int));
        i = i + 1;
    }
    assert(modifiers@.take(n as int) =~= modifiers@);
    plan.push(KeyAction::Key(key, Direction::Press));
    plan.push(KeyAction::Pause { min_ms: 20, max_ms: 60 });
    plan.push(KeyAction::Key(key, Direction::Release));
    let ghost before = plan@;
    assert(before =~= guarded_presses(modifiers@) + tap_spec(key, 20, 60));
    let mut j: usize = n;
    while j > 0
        invariant
            n == modifiers@.len(),
            j <= n,
            plan@ + guarded_releases(modifiers@.take(j as int)) == before + guarded_releases(
                modifiers@,
            ),
        decreases j,
    {
        let ghost old_plan = plan@;
        assert(modifiers@.take(j as int).drop_last() =~= modifiers@.take(j - 1));
        j = j - 1;
        plan.push(KeyAction::Pause { min_ms: 15, max_ms: 45 });
        plan.push(KeyAction::GuardedRelease(modifiers[j]));
        assert(plan@ + guarded_releases(modifiers@.take(j as int)) =~= old_plan
            + guarded_releases(modifiers@.take(j + 1)));
    }
    assert(modifiers@.take(0) =~= Seq::<Key>::empty());
    assert(plan@ =~= plan@ + guarded_releases(modifiers@.take(0)));
    plan
}

/// The modifiers pressed one by one with a 15–44 ms stagger, leaving out `skip`.
pub open spec fn plain_presses(mods: Seq<Key>, skip: Option<Key>) -> Seq<KeyAction>
    decreases mods.len(),
{
    if mods.len() == 0 {
        seq![]
    } else {
        plain_presses(mods.drop_last(), skip) + if skip == Some(mods.last()) {
            seq![]
        } else {
            seq![KeyAction::Key(mods.last(), Direction::Press), pause(15, 44)]
        }
    }
}

/// The modifiers released last-first with a 15–44 ms stagger, leaving out `skip`.
pub open spec fn plain_releases(mods: Seq<Key>, skip: Option<Key>) -> Seq<KeyAction>
    decreases mods.len(),
{
    if mods.len() == 0 {
        seq![]
    } else {
        (if skip == Some(mods.last()) {
            seq![]
        } else {
            seq![pause(15, 44), KeyAction::Key(mods.last(), Direction::Release)]
        }) + plain_releases(mods.drop_last(), skip)
    }
}

/// The mistaken key sequence that a combination failure produces.
pub open spec fn failure_actions(mods: Seq<Key>, key: Key, f: KeyCombinationFailure) -> Seq<
    KeyAction,
>
    decreases f,
{
    match f {
        KeyCombinationFailure::MissedModifier(m) => plain_presses(mods, Some(m)) + tap_spec(
            key,
            20,
            59,
        ) + plain_releases(mods, Some(m)),
        KeyCombinationFailure::WrongKeyTap(w) => plain_presses(mods, None) + tap_spec(w, 20, 59)
            + plain_releases(mods, None),
        KeyCombinationFailure::ReleasedModifierEarly(e) => plain_presses(mods, None) + seq![
            KeyAction::Key(e, Direction::Release),
            pause(10, 29),
        ] + tap_spec(key, 20, 59) + plain_releases(mods, Some(e)),
        KeyCombinationFailure::ModifierStuck(t) => plain_presses(mods, None) + tap_spec(key, 20, 59)
            + plain_releases(mods, Some(t)),
        KeyCombinationFailure::Compound(subs) => compound_failure_actions(mods, key, subs@),
    }
}

/// The sub-failures one after another, each followed by a 50 ms pause. The
/// key-sequence handling of a compound combination failure is defined here
/// by analogy with compound click failures (each part in turn, a 50 ms
/// stagger between them); its built-in recovery releases every stuck
/// modifier before the clean combination.
pub open spec fn compound_failure_actions(
    mods: Seq<Key>,
    key: Key,
    subs: Seq<KeyCombinationFailure>,
) -> Seq<KeyAction>
    decreases subs,
{
    if subs.len() == 0 {
        seq![]
    } else {
        compound_failure_actions(mods, key, subs.drop_last()) + failure_actions(
            mods,
            key,
            subs.last(),
        ) + seq![pause(50, 50)]
    }
}

/// The modifiers that a failure leaves held on purpose, in order.
pub open spec fn stuck_keys(f: KeyCombinationFailure) -> Seq<Key>
    decreases f,
{
    match f {
        KeyCombinationFailure::ModifierStuck(t) => seq![t],
        KeyCombinationFailure::Compound(subs) => compound_stuck_keys(subs@),
        _ => seq![],
    }
}

pub open spec fn compound_stuck_keys(subs: Seq<KeyCombinationFailure>) -> Seq<Key>
    decreases subs,
{
    if subs.len() == 0 {
        seq![]
    } else {
        compound_stuck_keys(subs.drop_last()) + stuck_keys(subs.last())
    }
}

/// Each key released, followed by a 100–199 ms pause.
pub open spec fn stuck_releases(keys: Seq<Key>) -> Seq<KeyAction>
    decreases keys.len(),
{
    if keys.len() == 0 {
        seq![]
    } else {
        stuck_releases(keys.drop_last()) + seq![
            KeyAction::Key(keys.last(), Direction::Release),
            pause(100, 199),
        ]
    }
}

/// The built-in recovery after a combination failure: a 200–350 ms moment of
/// realisation, the repair that the failure calls for, and the correct combination.
pub open spec fn default_recovery(mods: Seq<Key>, key: Key, f: KeyCombinationFailure) -> Seq<
    KeyAction,
> {
    seq![pause(200, 350)] + match f {
        KeyCombinationFailure::WrongKeyTap(_) => seq![
            KeyAction::Key(Key::Backspace, Direction::Press),
            pause(20, 49),
            KeyAction::Key(Key::Backspace, Direction::Release),
            pause(100, 199),
        ],
        KeyCombinationFailure::ModifierStuck(t) => stuck_releases(seq![t]),
        KeyCombinationFailure::Compound(_) => stuck_releases(stuck_keys(f)),
        _ => seq![],
    } + normal_combination(mods, key)
}

/// The plan of `key_combination_humanized`: with no failure triggered, the
/// clean combination; otherwise the failure's mistaken sequence followed by
/// the built-in recovery.
pub open spec fn humanized_combination(
    mods: Seq<Key>,
    key: Key,
    failure: Option<KeyCombinationFailure>,
) -> Seq<KeyAction> {
    match failure {
        None => normal_combination(mods, key),
        Some(f) => failure_actions(mods, key, f) + default_recovery(mods, key, f),
    }
}

/// The plan of `key_combination_flexible`: with no failure triggered, the
/// clean combination; otherwise the mistaken sequence, a 200–350 ms pause,
/// the caller's recovery, and the clean combination.
pub open spec fn flexible_combination(
    mods: Seq<Key>,
    key: Key,
    failure: Option<KeyCombinationFailure>,
) -> Seq<KeyAction> {
    match failure {
        None => normal_combination(mods, key),
        Some(f) => failure_actions(mods, key, f) + seq![pause(200, 350), KeyAction::Recover]
            + normal_combination(mods, key),
    }
}

fn push_normal(plan: &mut Vec<KeyAction>, modifiers: &[Key], key: Key)
    ensures
        final(plan)@ == old(plan)@ + normal_combination(modifiers@, key),
{
    let mut p = key_combination_normal_plan(modifiers, key);
    plan.append(&mut p);
}

fn push_tap(plan: &mut Vec<KeyAction>, key: Key, hold_min: u64, hold_max: u64)
    ensures
        final(plan)@ == old(plan)@ + tap_spec(key, hold_min, hold_max),
{
    plan.push(KeyAction::Key(key, Direction::Press));
    plan.push(KeyAction::Pause { min_ms: hold_min, max_ms: hold_max });
    plan.push(KeyAction::Key(key, Direction::Release));
    assert(final(plan)@ =~= old(plan)@ + tap_spec(key, hold_min, hold_max));
}

fn is_skipped(skip: Option<Key>, k: Key) -> (r: bool)
    ensures
        r == (skip == Some(k)),
{
    match skip {
        Some(s) => s == k,
        None => false,
    }
}

fn push_plain_presses(plan: &mut Vec<KeyAction>, modifiers: &[Key], skip: Option<Key>)
    ensures
        final(plan)@ == old(plan)@ + plain_presses(modifiers@, skip),
{
    let n = modifiers.len();
    let mut i: usize = 0;
    while i < n
        invariant
            n == modifiers@.len(),
            i <= n,
            plan@ == old(plan)@ + plain_presses(modifiers@.take(i as int), skip),
        decreases n - i,
    {
        assert(modifiers@.take(i + 1).drop_last() =~= modifiers@.take(i as int));
        let k = modifiers[i];
        if !is_skipped(skip, k) {
            plan.push(KeyAction::Key(k, Direction::Press));
            plan.push(KeyAction::Pause { min_ms: 15, max_ms: 44 });
        }
        i = i + 1;
        assert(plan@ =~= old(plan)@ + plain_presses(modifiers@.take(i as int), skip));
    }
    assert(modifiers@.take(n as int) =~= modifiers@);
}

fn push_plain_releases(plan: &mut Vec<KeyAction>, modifiers: &[Key], skip: Option<Key>)
    ensures
        final(plan)@ == old(plan)@ + plain_releases(modifiers@, skip),
{
    let n = modifiers.len();
    let mut j: usize = n;
    assert(modifiers@.take(n as int) =~= modifiers@);
    while j > 0
        invariant
            n == modifiers@.len(),
            j <= n,
            plan@ + plain_releases(modifiers@.take(j as int), skip) == old(plan)@ + plain_releases(
                modifiers@,
                skip,
            ),
        decreases j,
    {
        let ghost before = plan@;
        assert(modifiers@.take(j as int).drop_last() =~= modifiers@.take(j - 1));
        j = j - 1;
        let k = modifiers[j];
        if !is_skipped(skip, k) {
            plan.push(KeyAction::Pause { min_ms: 15, max_ms: 44 });
            plan.push(KeyAction::Key(k, Direction::Release));
        }
        assert(plan@ + plain_releases(modifiers@.take(j as int), skip) =~= before
            + plain_releases(modifiers@.take(j + 1), skip));
    }
    assert(modifiers@.take(0) =~= Seq::<Key>::empty());
    assert(plan@ =~= plan@ + plain_releases(modifiers@.take(0), skip));
}

fn push_failure_actions(
    plan: &mut Vec<KeyAction>,
    modifiers: &[Key],
    key: Key,
    failure: &KeyCombinationFailure,
)
    ensures
        final(plan)@ == old(plan)@ + failure_actions(modifiers@, key, *failure),
    decreases failure,
{
    match failure {
        KeyCombinationFailure::MissedModifier(m) => {
            push_plain_presses(plan, modifiers, Some(*m));
            push_tap(plan, key, 20, 59);
            push_plain_releases(plan, modifiers, Some(*m));
        },
        KeyCombinationFailure::WrongKeyTap(w) => {
            push_plain_presses(plan, modifiers, None);
            push_tap(plan, *w, 20, 59);
            push_plain_releases(plan, modifiers, None);
        },
        KeyCombinationFailure::ReleasedModifierEarly(e) => {
            push_plain_presses(plan, modifiers, None);
            plan.push(KeyAction::Key(*e, Direction::Release));
            plan.push(KeyAction::Pause { min_ms: 10, max_ms: 29 });
            push_tap(plan, key, 20, 59);
            push_plain_releases(plan, modifiers, Some(*e));
        },
        KeyCombinationFailure::ModifierStuck(t) => {
            push_plain_presses(plan, modifiers, None);
            push_tap(plan, key, 20, 59);
            push_plain_releases(plan, modifiers, Some(*t));
        },
        KeyCombinationFailure::Compound(subs) => {
            let mut i: usize = 0;
            while i < subs.len()
                invariant
                    *failure == KeyCombinationFailure::Compound(*subs),
                    i <= subs@.len(),
                    plan@ == old(plan)@ + compound_failure_actions(
                        modifiers@,
                        key,
                        subs@.take(i as int),
                    ),
                decreases subs@.len() - i,
            {
                proof {
                    assert(decreases_to!(*failure => failure->Compound_0));
                    assert(decreases_to!(failure->Compound_0 => failure->Compound_0@));
                    assert(decreases_to!(failure->Compound_0@ => subs@[i as int]));
                    assert(subs@.take(i + 1).drop_last() =~= subs@.take(i as int));
                }
                push_failure_actions(plan, modifiers, key, &subs[i]);
                plan.push(KeyAction::Pause { min_ms: 50, max_ms: 50 });
                i = i + 1;
            }
            assert(subs@.take(i as int) =~= subs@);
        },
    }
}

fn stuck_keys_of(failure: &KeyCombinationFailure) -> (keys: Vec<Key>)
    ensures
        keys@ == stuck_keys(*failure),
    decreases failure,
{
    match failure {
        KeyCombinationFailure::ModifierStuck(t) => {
            let mut v: Vec<Key> = Vec::new();
            v.push(*t);
            assert(v@ =~= seq![*t]);
            v
        },
        KeyCombinationFailure::Compound(subs) => {
            let mut v: Vec<Key> = Vec::new();
            let mut i: usize = 0;
            while i < subs.len()
                invariant
                    *failure == KeyCombinationFailure::Compound(*subs),
                    i <= subs@.len(),
                    v@ == compound_stuck_keys(subs@.take(i as int)),
                decreases subs@.len() - i,
            {
                proof {
                    assert(decreases_to!(*failure => failure->Compound_0));
                    assert(decreases_to!(failure->Compound_0 => failure->Compound_0@));
                    assert(decreases_to!(failure->Compound_0@ => subs@[i as int]));
                    assert(subs@.take(i + 1).drop_last() =~= subs@.take(i as int));
                }
                let mut more = stuck_keys_of(&subs[i]);
                v.append(&mut more);
                i = i + 1;
            }
            assert(subs@.take(i as int) =~= subs@);
            v
        },
        _ => Vec::new(),
    }
}

fn push_stuck_releases(plan: &mut Vec<KeyAction>, keys: &Vec<Key>)
    ensures
        final(plan)@ == old(plan)@ + stuck_releases(keys@),
{
    let mut i: usize = 0;
    while i < keys.len()
        invariant
            i <= keys@.len(),
            plan@ == old(plan)@ + stuck_releases(keys@.take(i as int)),
        decreases keys@.len() - i,
    {
        assert(keys@.take(i + 1).drop_last() =~= keys@.take(i as int));
        plan.push(KeyAction::Key(keys[i], Direction::Release));
        plan.push(KeyAction::Pause { min_ms: 100, max_ms: 199 });
        i = i + 1;
        assert(plan@ =~= old(plan)@ + stuck_releases(keys@.take(i as int)));
    }
    assert(keys@.take(i as int) =~= keys@);
}

fn push_default_recovery(
    plan: &mut Vec<KeyAction>,
    modifiers: &[Key],
    key: Key,
    failure: &KeyCombinationFailure,
)
    ensures
        final(plan)@ == old(plan)@ + default_recovery(modifiers@, key, *failure),
{
    plan.push(KeyAction::Pause { min_ms: 200, max_ms: 350 });
    let ghost after_pause = plan@;
    match failure {
        KeyCombinationFailure::WrongKeyTap(_) => {
            plan.push(KeyAction::Key(Key::Backspace, Direction::Press));
            plan.push(KeyAction::Pause { min_ms: 20, max_ms: 49 });
            plan.push(KeyAction::Key(Key::Backspace, Direction::Release));
            plan.push(KeyAction::Pause { min_ms: 100, max_ms: 199 });
        },
        KeyCombinationFailure::ModifierStuck(_) | KeyCombinationFailure::Compound(_) => {
            let keys = stuck_keys_of(failure);
            push_stuck_releases(plan, &keys);
            proof {
                if failure is ModifierStuck {
                    assert(stuck_keys(*failure) == seq![failure->ModifierStuck_0]);
                }
            }
        },
        _ => {},
    }
    let ghost middle = plan@;
    push_normal(plan, modifiers, key);
    assert(final(plan)@ =~= old(plan)@ + default_recovery(modifiers@, key, *failure));
}

/// The plan of a humanized key combination. `failure` is the combination
/// failure that was drawn for this call, if any: without one the plan is the
/// clean combination; with one it is the failure's mistaken key sequence
/// followed by the built-in recovery, which ends in the clean combination.
pub fn key_combination_humanized_plan(
    modifiers: &[Key],
    key: Key,
    failure: Option<&KeyCombinationFailure>,
) -> (plan: Vec<KeyAction>)
    ensures
        plan@ == humanized_combination(
            modifiers@,
            key,
            match failure {
                Some(f) => Some(*f),
                None => None,
            },
        ),
{
    match failure {
        None => key_combination_normal_plan(modifiers, key),
        Some(f) => {
            let mut plan: Vec<KeyAction> = Vec::new();
            push_failure_actions(&mut plan, modifiers, key, f);
            push_default_recovery(&mut plan, modifiers, key, f);
            assert(plan@ =~= failure_actions(modifiers@, key, *f) + default_recovery(
                modifiers@,
                key,
                *f,
            ));
            plan
        },
    }
}

/// The plan of a key combination with caller-supplied failures. `failure`
/// is the failure that was drawn, if any: without one the plan is the clean
/// combination; with one it is the mistaken key sequence, a 200–350 ms
/// pause, the caller's recovery, and the clean combination.
pub fn key_combination_flexible_plan(
    modifiers: &[Key],
    key: Key,
    failure: Option<&KeyCombinationFailure>,
) -> (plan: Vec<KeyAction>)
    ensures
        plan@ == flexible_combination(
            modifiers@,
            key,
            match failure {
                Some(f) => Some(*f),
                None => None,
            },
        ),
{
    match failure {
        None => key_combination_normal_plan(modifiers, key),
        Some(f) => {
            let mut plan: Vec<KeyAction> = Vec::new();
            push_failure_actions(&mut plan, modifiers, key, f);
            plan.push(KeyAction::Pause { min_ms: 200, max_ms: 350 });
            plan.push(KeyAction::Recover);
            push_normal(&mut plan, modifiers, key);
            assert(plan@ =~= failure_actions(modifiers@, key, *f) + seq![
                pause(200, 350),
                KeyAction::Recover,
            ] + normal_combination(modifiers@, key));
            plan
        },
    }
}

/// The modifiers of `mods` other than `skip`.
pub open spec fn kept(mods: Seq<Key>, skip: Option<Key>) -> Set<Key> {
    Set::new(|k: Key| mods.contains(k) && skip != Some(k))
}

proof fn lemma_plain_presses_held(start: Set<Key>, mods: Seq<Key>, skip: Option<Key>)
    ensures
        held_after(start, plain_presses(mods, skip)) =~= start + kept(mods, skip),
    decreases mods.len(),
{
    if mods.len() == 0 {
        assert(kept(mods, skip) =~= Set::empty());
    } else {
        let m = mods.drop_last();
        let x = mods.last();
        lemma_plain_presses_held(start, m, skip);
        let tail = if skip == Some(x) {
            seq![]
        } else {
            seq![KeyAction::Key(x, Direction::Press), pause(15, 44)]
        };
        lemma_held_after_concat(start, plain_presses(m, skip), tail);
        if skip != Some(x) {
            lemma_held_two(start + kept(m, skip), tail[0], tail[1]);
        }
        assert(mods =~= m.push(x));
        assert forall|k: Key| kept(mods, skip).contains(k) <==> (kept(m, skip).contains(k) || (k
            == x && skip != Some(x))) by {
            if mods.contains(k) && k != x {
                let i = choose|i: int| 0 <= i < mods.len() && mods[i] == k;
                assert(i < mods.len() - 1);
                assert(m[i] == k);
            }
            if m.contains(k) {
                let i = choose|i: int| 0 <= i < m.len() && m[i] == k;
                assert(mods[i] == k);
            }
            assert(mods[mods.len() - 1] == x);
        }
    }
}

proof fn lemma_plain_releases_held(start: Set<Key>, mods: Seq<Key>, skip: Option<Key>)
    ensures
        held_after(start, plain_releases(mods, skip)) =~= start - kept(mods, skip),
    decreases mods.len(),
{
    if mods.len() == 0 {
        assert(kept(mods, skip) =~= Set::empty());
    } else {
        let m = mods.drop_last();
        let x = mods.last();
        let head = if skip == Some(x) {
            seq![]
        } else {
            seq![pause(15, 44), KeyAction::Key(x, Direction::Release)]
        };
        lemma_held_after_concat(start, head, plain_releases(m, skip));
        let h = held_after(start, head);
        if skip != Some(x) {
            lemma_held_two(start, head[0], head[1]);
            assert(h == start.remove(x));
        } else {
            assert(h == start);
        }
        lemma_plain_releases_held(h, m, skip);
        assert forall|k: Key| kept(mods, skip).contains(k) <==> (kept(m, skip).contains(k) || (k
            == x && skip != Some(x))) by {
            if mods.contains(k) && k != x {
                let i = choose|i: int| 0 <= i < mods.len() && mods[i] == k;
                assert(i < mods.len() - 1);
                assert(m[i] == k);
            }
            if m.contains(k) {
                let i = choose|i: int| 0 <= i < m.len() && m[i] == k;
                assert(mods[i] == k);
            }
            assert(mods[mods.len() - 1] == x);
        }
    }
}

proof fn lemma_kept_in_mods(mods: Seq<Key>, skip: Option<Key>)
    ensures
        kept(mods, skip).subset_of(mods.to_set()),
{
}

/// Whatever a combination failure leaves held, beyond what was held before,
/// is one of the combination's modifiers.
pub proof fn lemma_failure_holds_only_modifiers(
    start: Set<Key>,
    mods: Seq<Key>,
    key: Key,
    f: KeyCombinationFailure,
)
    ensures
        held_after(start, failure_actions(mods, key, f)).subset_of(start + mods.to_set()),
    decreases f,
{
    match f {
        KeyCombinationFailure::MissedModifier(m) => {
            let a = plain_presses(mods, Some(m));
            let b = tap_spec(key, 20, 59);
            let c = plain_releases(mods, Some(m));
            lemma_held_after_concat(start, a + b, c);
            lemma_held_after_concat(start, a, b);
            lemma_plain_presses_held(start, mods, Some(m));
            lemma_tap_held(start + kept(mods, Some(m)), key, 20, 59);
            lemma_plain_releases_held(
                (start + kept(mods, Some(m))).insert(key).remove(key),
                mods,
                Some(m),
            );
        },
        KeyCombinationFailure::WrongKeyTap(w) => {
            let a = plain_presses(mods, None);
            let b = tap_spec(w, 20, 59);
            let c = plain_releases(mods, None);
            lemma_held_after_concat(start, a + b, c);
            lemma_held_after_concat(start, a, b);
            lemma_plain_presses_held(start, mods, None);
            lemma_tap_held(start + kept(mods, None), w, 20, 59);
            lemma_plain_releases_held((start + kept(mods, None)).insert(w).remove(w), mods, None);
        },
        KeyCombinationFailure::ReleasedModifierEarly(e) => {
            let a = plain_presses(mods, None);
            let e2 = seq![KeyAction::Key(e, Direction::Release), pause(10, 29)];
            let b = tap_spec(key, 20, 59);
            let c = plain_releases(mods, Some(e));
            lemma_held_after_concat(start, a + e2 + b, c);
            lemma_held_after_concat(start, a + e2, b);
            lemma_held_after_concat(start, a, e2);
            lemma_plain_presses_held(start, mods, None);
            lemma_held_two(start + kept(mods, None), e2[0], e2[1]);
            let h = (start + kept(mods, None)).remove(e);
            lemma_tap_held(h, key, 20, 59);
            lemma_plain_releases_held(h.insert(key).remove(key), mods, Some(e));
            lemma_kept_in_mods(mods, None);
        },
        KeyCombinationFailure::ModifierStuck(t) => {
            let a = plain_presses(mods, None);
            let b = tap_spec(key, 20, 59);
            let c = plain_releases(mods, Some(t));
            lemma_held_after_concat(start, a + b, c);
            lemma_held_after_concat(start, a, b);
            lemma_plain_presses_held(start, mods, None);
            lemma_tap_held(start + kept(mods, None), key, 20, 59);
            lemma_plain_releases_held(
                (start + kept(mods, None)).insert(key).remove(key),
                mods,
                Some(t),
            );
            lemma_kept_in_mods(mods, None);
        },
        KeyCombinationFailure::Compound(subs) => {
            lemma_compound_holds_only_modifiers(start, mods, key, subs@);
        },
    }
}

proof fn lemma_compound_holds_only_modifiers(
    start: Set<Key>,
    mods: Seq<Key>,
    key: Key,
    subs: Seq<KeyCombinationFailure>,
)
    ensures
        held_after(start, compound_failure_actions(mods, key, subs)).subset_of(
            start + mods.to_set(),
        ),
    decreases subs,
{
    if subs.len() > 0 {
        let first = compound_failure_actions(mods, key, subs.drop_last());
        let f = failure_actions(mods, key, subs.last());
        lemma_compound_holds_only_modifiers(start, mods, key, subs.drop_last());
        lemma_held_after_concat(start, first + f, seq![pause(50, 50)]);
        lemma_held_after_concat(start, first, f);
        let h = held_after(start, first);
        lemma_failure_holds_only_modifiers(h, mods, key, subs.last());
        lemma_held_one(held_after(h, f), pause(50, 50));
    }
}

proof fn lemma_stuck_releases_held(start: Set<Key>, keys: Seq<Key>)
    ensures
        held_after(start, stuck_releases(keys)).subset_of(start),
    decreases keys.len(),
{
    if keys.len() > 0 {
        let two = seq![KeyAction::Key(keys.last(), Direction::Release), pause(100, 199)];
        lemma_stuck_releases_held(start, keys.drop_last());
        lemma_held_after_concat(start, stuck_releases(keys.drop_last()), two);
        lemma_held_two(held_after(start, stuck_releases(keys.drop_last())), two[0], two[1]);
    }
}

/// Whatever failure is drawn, a humanized key combination ends with none of
/// its modifiers and not its key held, and holds nothing that was not held
/// before: no key is left stuck once the built-in recovery has run.
pub proof fn lemma_humanized_combination_leaves_nothing_held(
    start: Set<Key>,
    mods: Seq<Key>,
    key: Key,
    failure: Option<KeyCombinationFailure>,
)
    ensures
        held_after(start, humanized_combination(mods, key, failure)).subset_of(
            start - mods.to_set() - set![key],
        ),
        held_after(Set::empty(), humanized_combination(mods, key, failure)) =~= Set::empty(),
{
    lemma_humanized_subset(start, mods, key, failure);
    lemma_humanized_subset(Set::empty(), mods, key, failure);
}

proof fn lemma_humanized_subset(
    start: Set<Key>,
    mods: Seq<Key>,
    key: Key,
    failure: Option<KeyCombinationFailure>,
)
    ensures
        held_after(start, humanized_combination(mods, key, failure)).subset_of(
            start - mods.to_set() - set![key],
        ),
{
    match failure {
        None => {
            lemma_normal_combination_releases_all(start, mods, key);
        },
        Some(f) => {
            let a = failure_actions(mods, key, f);
            let repair = match f {
                KeyCombinationFailure::WrongKeyTap(_) => seq![
                    KeyAction::Key(Key::Backspace, Direction::Press),
                    pause(20, 49),
                    KeyAction::Key(Key::Backspace, Direction::Release),
                    pause(100, 199),
                ],
                KeyCombinationFailure::ModifierStuck(t) => stuck_releases(seq![t]),
                KeyCombinationFailure::Compound(_) => stuck_releases(stuck_keys(f)),
                _ => seq![],
            };
            let n = normal_combination(mods, key);
            assert(default_recovery(mods, key, f) == seq![pause(200, 350)] + repair + n);
            assert(a + default_recovery(mods, key, f) =~= a + seq![pause(200, 350)] + repair + n);
            lemma_held_after_concat(start, a + seq![pause(200, 350)] + repair, n);
            lemma_held_after_concat(start, a + seq![pause(200, 350)], repair);
            lemma_held_after_concat(start, a, seq![pause(200, 350)]);
            lemma_failure_holds_only_modifiers(start, mods, key, f);
            let h1 = held_after(start, a);
            lemma_held_one(h1, pause(200, 350));
            match f {
                KeyCombinationFailure::WrongKeyTap(_) => {
                    assert(repair =~= seq![
                        KeyAction::Key(Key::Backspace, Direction::Press),
                        pause(20, 49),
                    ] + seq![KeyAction::Key(Key::Backspace, Direction::Release), pause(100, 199)]);
                    lemma_held_after_concat(h1, seq![repair[0], repair[1]], seq![repair[2], repair[3]]);
                    lemma_held_two(h1, repair[0], repair[1]);
                    lemma_held_two(h1.insert(Key::Backspace), repair[2], repair[3]);
                },
                KeyCombinationFailure::ModifierStuck(t) => {
                    lemma_stuck_releases_held(h1, seq![t]);
                },
                KeyCombinationFailure::Compound(_) => {
                    lemma_stuck_releases_held(h1, stuck_keys(f));
                },
                _ => {
                    assert(held_after(h1, repair) == h1);
                },
            }
            let h2 = held_after(h1, repair);
            assert(h2.subset_of(start + mods.to_set()));
            lemma_normal_combination_releases_all(h2, mods, key);
        },
    }
}

/// Whatever failure is drawn, a key combination with caller-supplied
/// failures ends with none of its modifiers and not its key held, and holds
/// nothing that was not held before (the caller's recovery itself aside).
pub proof fn lemma_flexible_combination_leaves_nothing_held(
    start: Set<Key>,
    mods: Seq<Key>,
    key: Key,
    failure: Option<KeyCombinationFailure>,
)
    ensures
        held_after(start, flexible_combination(mods, key, failure)).subset_of(
            start - mods.to_set() - set![key],
        ),
{
    match failure {
        None => {
            lemma_normal_combination_releases_all(start, mods, key);
        },
        Some(f) => {
            let a = failure_actions(mods, key, f);
            let mid = seq![pause(200, 350), KeyAction::Recover];
            let n = normal_combination(mods, key);
            lemma_held_after_concat(start, a + mid, n);
            lemma_held_after_concat(start, a, mid);
            lemma_failure_holds_only_modifiers(start, mods, key, f);
            lemma_held_two(held_after(start, a), mid[0], mid[1]);
            lemma_normal_combination_releases_all(held_after(start, a + mid), mods, key);
        },
    }
}

/// A stuck modifier stays held after the mistaken combination: from nothing
/// held, exactly the stuck key is held, provided it is one of the modifiers
/// and not the combination's key.
pub proof fn lemma_modifier_stuck_leaves_it_held(mods: Seq<Key>, key: Key, t: Key)
    ensures
        held_after(Set::empty(), failure_actions(mods, key, KeyCombinationFailure::ModifierStuck(t)))
            =~= if mods.contains(t) && t != key {
            set![t]
        } else {
            Set::empty()
        },
{
    let start = Set::<Key>::empty();
    let a = plain_presses(mods, None);
    let b = tap_spec(key, 20, 59);
    let c = plain_releases(mods, Some(t));
    lemma_held_after_concat(start, a + b, c);
    lemma_held_after_concat(start, a, b);
    lemma_plain_presses_held(start, mods, None);
    lemma_tap_held(start + kept(mods, None), key, 20, 59);
    lemma_plain_releases_held((start + kept(mods, None)).insert(key).remove(key), mods, Some(t));
}

/// How one action changes the modifiers held by the guard of a combination:
/// a guarded press enters it once sent, a guarded release takes the most
/// recent one out before it is sent.
pub open spec fn guard_step(st: Seq<Key>, a: KeyAction) -> Seq<Key> {
    match a {
        KeyAction::GuardedPress(k) => st.push(k),
        KeyAction::GuardedRelease(_) => if st.len() > 0 {
            st.drop_last()
        } else {
            st
        },
        _ => st,
    }
}

/// The modifiers the guard holds after the actions, starting from `st`.
pub open spec fn guard_stack_from(st: Seq<Key>, acts: Seq<KeyAction>) -> Seq<Key>
    decreases acts.len(),
{
    if acts.len() == 0 {
        st
    } else {
        guard_step(guard_stack_from(st, acts.drop_last()), acts.last())
    }
}

/// The modifiers the guard of a combination holds after the actions.
pub open spec fn guard_stack(acts: Seq<KeyAction>) -> Seq<Key> {
    guard_stack_from(seq![], acts)
}

/// The modifiers to release, in order, when action `failed_at` of a plan
/// fails: those the guard still holds, the most recently pressed first.
pub open spec fn guard_cleanup_spec(acts: Seq<KeyAction>, failed_at: int) -> Seq<Key> {
    let st = guard_stack(acts.take(failed_at));
    let st2 = if acts[failed_at] is GuardedRelease && st.len() > 0 {
        st.drop_last()
    } else {
        st
    };
    st2.reverse()
}

/// The modifiers to release when action `failed_at` of the plan fails, so
/// that a combination cut short leaves no guarded modifier down: those
/// pressed through the guard and not yet taken out of it, most recent first.
pub fn guard_cleanup(plan: &Vec<KeyAction>, failed_at: usize) -> (keys: Vec<Key>)
    requires
        failed_at < plan@.len(),
    ensures
        keys@ == guard_cleanup_spec(plan@, failed_at as int),
{
    let mut st: Vec<Key> = Vec::new();
    let mut i: usize = 0;
    while i < failed_at
        invariant
            failed_at < plan@.len(),
            i <= failed_at,
            st@ == guard_stack(plan@.take(i as int)),
        decreases failed_at - i,
    {
        assert(plan@.take(i + 1).drop_last() =~= plan@.take(i as int));
        match plan[i] {
            KeyAction::GuardedPress(k) => {
                st.push(k);
            },
            KeyAction::GuardedRelease(_) => {
                if st.len() > 0 {
                    let ghost before = st@;
                    st.pop();
                    assert(st@ =~= before.drop_last());
                }
            },
            _ => {},
        }
        i = i + 1;
    }
    match plan[failed_at] {
        KeyAction::GuardedRelease(_) => {
            if st.len() > 0 {
                let ghost before = st@;
                st.pop();
                assert(st@ =~= before.drop_last());
            }
        },
        _ => {},
    }
    let ghost kept = st@;
    let mut out: Vec<Key> = Vec::new();
    let mut j: usize = st.len();
    while j > 0
        invariant
            j <= kept.len(),
            st@ == kept,
            out@ == kept.subrange(j as int, kept.len() as int).reverse(),
        decreases j,
    {
        j = j - 1;
        out.push(st[j]);
        assert(out@ =~= kept.subrange(j as int, kept.len() as int).reverse());
    }
    assert(kept.subrange(0, kept.len() as int) =~= kept);
    out
}

proof fn lemma_plain_presses_shape(mods: Seq<Key>, skip: Option<Key>)
    ensures
        forall|i: int|
            0 <= i < plain_presses(mods, skip).len() ==> {
                let a = #[trigger] plain_presses(mods, skip)[i];
                a is Pause || (a matches KeyAction::Key(k, Direction::Press) && mods.contains(k)
                    && skip != Some(k))
            },
    decreases mods.len(),
{
    if mods.len() > 0 {
        let m = mods.drop_last();
        lemma_plain_presses_shape(m, skip);
        assert forall|i: int| 0 <= i < plain_presses(mods, skip).len() implies {
            let a = #[trigger] plain_presses(mods, skip)[i];
            a is Pause || (a matches KeyAction::Key(k, Direction::Press) && mods.contains(k)
                && skip != Some(k))
        } by {
            if i < plain_presses(m, skip).len() {
                let a = plain_presses(m, skip)[i];
                if let KeyAction::Key(k, Direction::Press) = a {
                    let j = choose|j: int| 0 <= j < m.len() && m[j] == k;
                    assert(mods[j] == k);
                }
            } else {
                assert(mods[mods.len() - 1] == mods.last());
            }
        }
    }
}

proof fn lemma_plain_releases_shape(mods: Seq<Key>, skip: Option<Key>)
    ensures
        forall|i: int|
            0 <= i < plain_releases(mods, skip).len() ==> {
                let a = #[trigger] plain_releases(mods, skip)[i];
                a is Pause || a matches KeyAction::Key(_, Direction::Release)
            },
    decreases mods.len(),
{
    if mods.len() > 0 {
        lemma_plain_releases_shape(mods.drop_last(), skip);
        let head = if skip == Some(mods.last()) {
            seq![]
        } else {
            seq![pause(15, 44), KeyAction::Key(mods.last(), Direction::Release)]
        };
        assert forall|i: int| 0 <= i < plain_releases(mods, skip).len() implies {
            let a = #[trigger] plain_releases(mods, skip)[i];
            a is Pause || a matches KeyAction::Key(_, Direction::Release)
        } by {
            if i >= head.len() {
                assert(plain_releases(mods, skip)[i] == plain_releases(mods.drop_last(), skip)[i
                    - head.len()]);
            }
        }
    }
}

/// A missed modifier is never pressed during the mistaken combination (the
/// combination's key being another key).
pub proof fn lemma_missed_modifier_never_pressed(mods: Seq<Key>, key: Key, m: Key)
    requires
        key != m,
    ensures
        !failure_actions(mods, key, KeyCombinationFailure::MissedModifier(m)).contains(
            KeyAction::Key(m, Direction::Press),
        ),
        !failure_actions(mods, key, KeyCombinationFailure::MissedModifier(m)).contains(
            KeyAction::GuardedPress(m),
        ),
{
    let a = plain_presses(mods, Some(m));
    let t = tap_spec(key, 20, 59);
    let r = plain_releases(mods, Some(m));
    let all = a + t + r;
    lemma_plain_presses_shape(mods, Some(m));
    lemma_plain_releases_shape(mods, Some(m));
    assert forall|i: int| 0 <= i < all.len() implies all[i] != KeyAction::Key(m, Direction::Press)
        && all[i] != KeyAction::GuardedPress(m) by {
        if i < a.len() {
            assert(all[i] == a[i]);
        } else if i < a.len() + 3 {
            assert(all[i] == t[i - a.len()]);
        } else {
            assert(all[i] == r[i - a.len() - 3]);
        }
    }
}

/// Tapping the wrong key never presses the intended one (when it is neither
/// a modifier of the combination nor the wrong key), and the wrong key goes
/// down and up while the modifiers are held.
pub proof fn lemma_wrong_key_tap_misses_the_key(mods: Seq<Key>, key: Key, w: Key)
    requires
        key != w,
        !mods.contains(key),
    ensures
        !failure_actions(mods, key, KeyCombinationFailure::WrongKeyTap(w)).contains(
            KeyAction::Key(key, Direction::Press),
        ),
        failure_actions(mods, key, KeyCombinationFailure::WrongKeyTap(w))[plain_presses(
            mods,
            None,
        ).len() as int] == KeyAction::Key(w, Direction::Press),
        held_after(
            Set::empty(),
            failure_actions(mods, key, KeyCombinationFailure::WrongKeyTap(w)).take(
                plain_presses(mods, None).len() + 1int,
            ),
        ) =~= mods.to_set().insert(w),
{
    let a = plain_presses(mods, None);
    let t = tap_spec(w, 20, 59);
    let r = plain_releases(mods, None);
    let all = a + t + r;
    lemma_plain_presses_shape(mods, None);
    lemma_plain_releases_shape(mods, None);
    assert forall|i: int| 0 <= i < all.len() implies all[i] != KeyAction::Key(key, Direction::Press) by {
        if i < a.len() {
            assert(all[i] == a[i]);
        } else if i < a.len() + 3 {
            assert(all[i] == t[i - a.len()]);
        } else {
            assert(all[i] == r[i - a.len() - 3]);
        }
    }
    assert(all.take(a.len() + 1int) =~= a + seq![KeyAction::Key(w, Direction::Press)]);
    lemma_held_after_concat(Set::empty(), a, seq![KeyAction::Key(w, Direction::Press)]);
    lemma_plain_presses_held(Set::empty(), mods, None);
    lemma_held_one(Set::<Key>::empty() + kept(mods, None), KeyAction::Key(w, Direction::Press));
    assert(kept(mods, None) =~= mods.to_set());
}

/// A modifier let go early is up when the combination's key goes down: the
/// key press comes right after its release and a 10–29 ms pause, and from
/// nothing held the early modifier is not held at that moment (the key
/// being another key).
pub proof fn lemma_released_early_modifier_is_up_for_the_key(mods: Seq<Key>, key: Key, e: Key)
    requires
        key != e,
    ensures
        ({
            let acts = failure_actions(mods, key, KeyCombinationFailure::ReleasedModifierEarly(e));
            let p = plain_presses(mods, None).len() as int;
            &&& acts[p] == KeyAction::Key(e, Direction::Release)
            &&& acts[p + 2] == KeyAction::Key(key, Direction::Press)
            &&& !held_after(Set::empty(), acts.take(p + 3)).contains(e)
            &&& held_after(Set::empty(), acts.take(p + 3)).contains(key)
        }),
{
    let a = plain_presses(mods, None);
    let e2 = seq![KeyAction::Key(e, Direction::Release), pause(10, 29)];
    let acts = failure_actions(mods, key, KeyCombinationFailure::ReleasedModifierEarly(e));
    let p = a.len() as int;
    assert(acts.take(p + 3) =~= a + e2 + seq![KeyAction::Key(key, Direction::Press)]);
    lemma_held_after_concat(Set::empty(), a + e2, seq![KeyAction::Key(key, Direction::Press)]);
    lemma_held_after_concat(Set::empty(), a, e2);
    lemma_plain_presses_held(Set::empty(), mods, None);
    lemma_held_two(Set::<Key>::empty() + kept(mods, None), e2[0], e2[1]);
    lemma_held_one(
        (Set::<Key>::empty() + kept(mods, None)).remove(e),
        KeyAction::Key(key, Direction::Press),
    );
}

proof fn lemma_guard_stack_concat(st: Seq<Key>, a: Seq<KeyAction>, b: Seq<KeyAction>)
    ensures
        guard_stack_from(st, a + b) == guard_stack_from(guard_stack_from(st, a), b),
    decreases b.len(),
{
    if b.len() == 0 {
        assert(a + b =~= a);
    } else {
        lemma_guard_stack_concat(st, a, b.drop_last());
        assert((a + b).drop_last() =~= a + b.drop_last());
        assert((a + b).last() == b.last());
    }
}

proof fn lemma_guard_stack_one(st: Seq<Key>, x: KeyAction)
    ensures
        guard_stack_from(st, seq![x]) == guard_step(st, x),
{
    assert(seq![x].drop_last() =~= Seq::<KeyAction>::empty());
    assert(guard_stack_from(st, Seq::<KeyAction>::empty()) == st);
    assert(seq![x].last() == x);
}

proof fn lemma_guard_stack_two(st: Seq<Key>, x: KeyAction, y: KeyAction)
    ensures
        guard_stack_from(st, seq![x, y]) == guard_step(guard_step(st, x), y),
{
    assert(seq![x, y] =~= seq![x] + seq![y]);
    lemma_guard_stack_concat(st, seq![x], seq![y]);
    lemma_guard_stack_one(st, x);
    lemma_guard_stack_one(guard_step(st, x), y);
}

proof fn lemma_guarded_presses_split(a: Seq<Key>, b: Seq<Key>)
    ensures
        guarded_presses(a + b) == guarded_presses(a) + guarded_presses(b),
        guarded_presses(a).len() == 2 * a.len(),
    decreases b.len(), a.len(),
{
    if a.len() > 0 {
        lemma_guarded_presses_split(a.drop_last(), seq![]);
    }
    if b.len() == 0 {
        assert(a + b =~= a);
        assert(guarded_presses(a) + guarded_presses(b) =~= guarded_presses(a));
    } else {
        lemma_guarded_presses_split(a, b.drop_last());
        assert((a + b).drop_last() =~= a + b.drop_last());
        assert((a + b).last() == b.last());
    }
}

proof fn lemma_guarded_releases_split(a: Seq<Key>, b: Seq<Key>)
    ensures
        guarded_releases(a + b) == guarded_releases(b) + guarded_releases(a),
        guarded_releases(a).len() == 2 * a.len(),
    decreases b.len(), a.len(),
{
    if a.len() > 0 {
        lemma_guarded_releases_split(a.drop_last(), seq![]);
    }
    if b.len() == 0 {
        assert(a + b =~= a);
        assert(guarded_releases(b) + guarded_releases(a) =~= guarded_releases(a));
    } else {
        lemma_guarded_releases_split(a, b.drop_last());
        assert((a + b).drop_last() =~= a + b.drop_last());
        assert((a + b).last() == b.last());
    }
}

proof fn lemma_guard_presses_stack(st: Seq<Key>, mods: Seq<Key>)
    ensures
        guard_stack_from(st, guarded_presses(mods)) == st + mods,
    decreases mods.len(),
{
    if mods.len() == 0 {
        assert(st + mods =~= st);
    } else {
        let m = mods.drop_last();
        let two = seq![KeyAction::GuardedPress(mods.last()), pause(15, 45)];
        lemma_guard_presses_stack(st, m);
        lemma_guard_stack_concat(st, guarded_presses(m), two);
        lemma_guard_stack_two(st + m, two[0], two[1]);
        assert((st + m).push(mods.last()) =~= st + mods);
    }
}

proof fn lemma_guard_releases_stack(a: Seq<Key>, b: Seq<Key>)
    ensures
        guard_stack_from(a + b, guarded_releases(b)) == a,
    decreases b.len(),
{
    if b.len() == 0 {
        assert(a + b =~= a);
    } else {
        let b1 = b.drop_last();
        let two = seq![pause(15, 45), KeyAction::GuardedRelease(b.last())];
        lemma_guard_stack_concat(a + b, two, guarded_releases(b1));
        lemma_guard_stack_two(a + b, two[0], two[1]);
        assert((a + b).drop_last() =~= a + b1);
        lemma_guard_releases_stack(a, b1);
    }
}

proof fn lemma_tap_stack(st: Seq<Key>, key: Key, k: int)
    requires
        0 <= k <= 3,
    ensures
        guard_stack_from(st, tap_spec(key, 20, 60).take(k)) == st,
{
    let t = tap_spec(key, 20, 60);
    if k == 0 {
        assert(t.take(0) =~= Seq::<KeyAction>::empty());
    } else if k == 1 {
        assert(t.take(1) =~= seq![t[0]]);
        lemma_guard_stack_one(st, t[0]);
    } else if k == 2 {
        assert(t.take(2) =~= seq![t[0], t[1]]);
        lemma_guard_stack_two(st, t[0], t[1]);
    } else {
        assert(t.take(3) =~= seq![t[0], t[1]] + seq![t[2]]);
        lemma_guard_stack_concat(st, seq![t[0], t[1]], seq![t[2]]);
        lemma_guard_stack_two(st, t[0], t[1]);
        lemma_guard_stack_one(st, t[2]);
    }
}

proof fn lemma_tap_prefix_held(start: Set<Key>, key: Key, k: int)
    requires
        0 <= k <= 3,
    ensures
        held_after(start, tap_spec(key, 20, 60).take(k)).subset_of(start.insert(key)),
{
    let t = tap_spec(key, 20, 60);
    if k == 0 {
        assert(t.take(0) =~= Seq::<KeyAction>::empty());
    } else if k == 1 {
        assert(t.take(1) =~= seq![t[0]]);
        lemma_held_one(start, t[0]);
    } else if k == 2 {
        assert(t.take(2) =~= seq![t[0], t[1]]);
        lemma_held_two(start, t[0], t[1]);
    } else {
        assert(t.take(3) =~= t);
        lemma_tap_held(start, key, 20, 60);
    }
}

/// Each key released in turn.
pub open spec fn releases_of(keys: Seq<Key>) -> Seq<KeyAction>
    decreases keys.len(),
{
    if keys.len() == 0 {
        seq![]
    } else {
        releases_of(keys.drop_last()).push(KeyAction::Key(keys.last(), Direction::Release))
    }
}

proof fn lemma_releases_of_held(start: Set<Key>, keys: Seq<Key>)
    ensures
        held_after(start, releases_of(keys)) =~= start - keys.to_set(),
    decreases keys.len(),
{
    if keys.len() == 0 {
        assert(keys.to_set() =~= Set::empty());
    } else {
        let k = keys.drop_last();
        lemma_releases_of_held(start, k);
        assert(releases_of(keys).drop_last() =~= releases_of(k));
        assert(keys =~= k.push(keys.last()));
        k.lemma_push_to_set_commute(keys.last());
    }
}

proof fn lemma_reverse_to_set(s: Seq<Key>)
    ensures
        s.reverse().to_set() =~= s.to_set(),
{
    assert forall|k: Key| s.reverse().to_set().contains(k) <==> s.to_set().contains(k) by {
        if s.reverse().contains(k) {
            let i = choose|i: int| 0 <= i < s.reverse().len() && s.reverse()[i] == k;
            assert(s[s.len() - 1 - i] == k);
        }
        if s.contains(k) {
            let i = choose|i: int| 0 <= i < s.len() && s[i] == k;
            assert(s.reverse()[s.len() - 1 - i] == k);
        }
    }
}

/// The guard keeps a combination cut short from leaving modifiers down:
/// whichever action of a clean combination fails (other than the release of
/// a guarded modifier itself), sending the actions before it and then the
/// guard's releases leaves nothing held that was not held before, except
/// possibly the combination's key.
pub proof fn lemma_guard_cleanup_releases_modifiers(
    start: Set<Key>,
    mods: Seq<Key>,
    key: Key,
    failed_at: int,
)
    requires
        0 <= failed_at < normal_combination(mods, key).len(),
        !(normal_combination(mods, key)[failed_at] is GuardedRelease),
    ensures
        held_after(
            start,
            normal_combination(mods, key).take(failed_at) + releases_of(
                guard_cleanup_spec(normal_combination(mods, key), failed_at),
            ),
        ).subset_of(start.insert(key)),
{
    let n = normal_combination(mods, key);
    let p = guarded_presses(mods);
    let t = tap_spec(key, 20, 60);
    let r = guarded_releases(mods);
    let m = mods.len() as int;
    let pre = n.take(failed_at);
    lemma_guarded_presses_split(mods, seq![]);
    lemma_guarded_releases_split(mods, seq![]);
    // The guard's contents and the held keys just before the failing action.
    let (st, h) = if failed_at <= 2 * m {
        let c = failed_at / 2;
        lemma_guarded_presses_split(mods.take(c), mods.skip(c));
        assert(mods.take(c) + mods.skip(c) =~= mods);
        lemma_guarded_presses_split(mods.take(c), seq![]);
        if failed_at == 2 * c {
            assert(pre =~= guarded_presses(mods.take(c)));
            lemma_guard_presses_stack(seq![], mods.take(c));
            assert(seq![] + mods.take(c) =~= mods.take(c));
            lemma_guarded_presses_held(start, mods.take(c));
            (mods.take(c), start + mods.take(c).to_set())
        } else {
            let gp = KeyAction::GuardedPress(mods[c]);
            lemma_guarded_presses_split(seq![mods[c]], mods.skip(c + 1));
            assert(mods.skip(c) =~= seq![mods[c]] + mods.skip(c + 1));
            assert(seq![mods[c]].drop_last() =~= Seq::<Key>::empty());
            assert(guarded_presses(seq![mods[c]]) =~= seq![gp, pause(15, 45)]);
            assert(pre =~= guarded_presses(mods.take(c)) + seq![gp]);
            lemma_guard_stack_concat(seq![], guarded_presses(mods.take(c)), seq![gp]);
            lemma_guard_presses_stack(seq![], mods.take(c));
            assert(seq![] + mods.take(c) =~= mods.take(c));
            lemma_guard_stack_one(mods.take(c), gp);
            assert(mods.take(c).push(mods[c]) =~= mods.take(c + 1));
            lemma_held_after_concat(start, guarded_presses(mods.take(c)), seq![gp]);
            lemma_guarded_presses_held(start, mods.take(c));
            lemma_held_one(start + mods.take(c).to_set(), gp);
            mods.take(c).lemma_push_to_set_commute(mods[c]);
            (mods.take(c + 1), start + mods.take(c + 1).to_set())
        }
    } else if failed_at <= 2 * m + 3 {
        let k = failed_at - 2 * m;
        assert(pre =~= p + t.take(k));
        lemma_guard_stack_concat(seq![], p, t.take(k));
        lemma_guard_presses_stack(seq![], mods);
        assert(seq![] + mods =~= mods);
        lemma_tap_stack(mods, key, k);
        lemma_held_after_concat(start, p, t.take(k));
        lemma_guarded_presses_held(start, mods);
        lemma_tap_prefix_held(start + mods.to_set(), key, k);
        (mods, (start + mods.to_set()).insert(key))
    } else {
        let u = failed_at - 2 * m - 3;
        let rr = u / 2;
        assert(u == 2 * rr) by {
            if u == 2 * rr + 1 {
                assert(n[failed_at] == r[u]);
                let b = mods.skip(m - rr - 1);
                lemma_guarded_releases_split(mods.take(m - rr - 1), b);
                assert(mods.take(m - rr - 1) + b =~= mods);
                assert(b =~= b.drop_last().push(mods[m - 1]));
                assert(r[u] == KeyAction::GuardedRelease(mods[m - 1 - rr])) by {
                    lemma_release_at(mods, rr);
                }
            }
        }
        let b = mods.skip(m - rr);
        let a = mods.take(m - rr);
        assert(a + b =~= mods);
        lemma_guarded_releases_split(a, b);
        lemma_guarded_releases_split(b, seq![]);
        assert(r.take(u) =~= guarded_releases(b));
        assert(pre =~= p + t + guarded_releases(b));
        lemma_guard_stack_concat(seq![], p + t, guarded_releases(b));
        lemma_guard_stack_concat(seq![], p, t);
        lemma_guard_presses_stack(seq![], mods);
        assert(seq![] + mods =~= mods);
        assert(t.take(3) =~= t);
        lemma_tap_stack(mods, key, 3);
        lemma_guard_releases_stack(a, b);
        lemma_held_after_concat(start, p + t, guarded_releases(b));
        lemma_held_after_concat(start, p, t);
        lemma_guarded_presses_held(start, mods);
        lemma_tap_held(start + mods.to_set(), key, 20, 60);
        lemma_guarded_releases_held((start + mods.to_set()).insert(key).remove(key), b);
        assert forall|x: Key| #[trigger] mods.to_set().contains(x) && !b.to_set().contains(x)
            implies a.to_set().contains(x) by {
            let i = choose|i: int| 0 <= i < mods.len() && mods[i] == x;
            if i < m - rr {
                assert(a[i] == x);
            } else {
                assert(b[i - (m - rr)] == x);
            }
        }
        (a, start + a.to_set())
    };
    assert(guard_stack(pre) == st);
    assert(held_after(start, pre).subset_of(h));
    assert(h.subset_of(start.insert(key) + st.to_set()));
    let cleanup = guard_cleanup_spec(n, failed_at);
    assert(cleanup == st.reverse());
    lemma_held_after_concat(start, pre, releases_of(cleanup));
    lemma_releases_of_held(held_after(start, pre), cleanup);
    lemma_reverse_to_set(st);
}

proof fn lemma_release_at(mods: Seq<Key>, rr: int)
    requires
        0 <= rr < mods.len(),
    ensures
        guarded_releases(mods)[2 * rr + 1] == KeyAction::GuardedRelease(mods[mods.len() - 1 - rr]),
    decreases mods.len(),
{
    let head = seq![pause(15, 45), KeyAction::GuardedRelease(mods.last())];
    let tail = guarded_releases(mods.drop_last());
    lemma_guarded_releases_split(mods.drop_last(), seq![]);
    assert(guarded_releases(mods) == head + tail);
    if rr > 0 {
        lemma_release_at(mods.drop_last(), rr - 1);
        assert(tail[2 * (rr - 1) + 1] == KeyAction::GuardedRelease(
            mods.drop_last()[mods.len() - 2 - (rr - 1)],
        ));
        assert((head + tail)[2 * rr + 1] == tail[2 * (rr - 1) + 1]);
    } else {
        assert((head + tail)[1] == head[1]);
    }
}

} // verus!
verus! {

/// When the press of modifier `c` of a clean combination fails, the guard
/// releases exactly the modifiers already pressed, the last pressed first;
/// the key itself was never pressed.
pub proof fn lemma_failed_press_releases_pressed_in_reverse(mods: Seq<Key>, key: Key, c: int)
    requires
        0 <= c < mods.len(),
    ensures
        normal_combination(mods, key)[2 * c] == KeyAction::GuardedPress(mods[c]),
        guard_cleanup_spec(normal_combination(mods, key), 2 * c) == mods.take(c).reverse(),
        !normal_combination(mods, key).take(2 * c).contains(KeyAction::Key(key, Direction::Press)),
{
    let n = normal_combination(mods, key);
    let gp = KeyAction::GuardedPress(mods[c]);
    lemma_guarded_presses_split(mods.take(c), mods.skip(c));
    assert(mods.take(c) + mods.skip(c) =~= mods);
    lemma_guarded_presses_split(mods.take(c), seq![]);
    lemma_guarded_presses_split(seq![mods[c]], mods.skip(c + 1));
    assert(mods.skip(c) =~= seq![mods[c]] + mods.skip(c + 1));
    assert(seq![mods[c]].drop_last() =~= Seq::<Key>::empty());
    assert(guarded_presses(seq![mods[c]]) =~= seq![gp, pause(15, 45)]);
    let pre = n.take(2 * c);
    assert(pre =~= guarded_presses(mods.take(c)));
    assert(n[2 * c] == gp);
    lemma_guard_presses_stack(seq![], mods.take(c));
    assert(seq![] + mods.take(c) =~= mods.take(c));
    assert(guard_stack(pre) == mods.take(c));
    lemma_presses_are_guarded(mods.take(c));
    if pre.contains(KeyAction::Key(key, Direction::Press)) {
        let k = choose|k: int| 0 <= k < pre.len() && pre[k] == KeyAction::Key(key, Direction::Press);
        assert(guarded_presses(mods.take(c))[k] == KeyAction::Key(key, Direction::Press));
    }
}

proof fn lemma_presses_are_guarded(mods: Seq<Key>)
    ensures
        forall|k: int|
            0 <= k < guarded_presses(mods).len() ==> (#[trigger] guarded_presses(mods)[k] is GuardedPress
                || guarded_presses(mods)[k] is Pause),
    decreases mods.len(),
{
    if mods.len() > 0 {
        let m = mods.drop_last();
        lemma_presses_are_guarded(m);
        let two = seq![KeyAction::GuardedPress(mods.last()), pause(15, 45)];
        assert forall|k: int| 0 <= k < guarded_presses(mods).len() implies (
        #[trigger] guarded_presses(mods)[k] is GuardedPress || guarded_presses(mods)[k] is Pause) by {
            if k < guarded_presses(m).len() {
                assert(guarded_presses(mods)[k] == guarded_presses(m)[k]);
            } else {
                assert(guarded_presses(mods)[k] == two[k - guarded_presses(m).len()]);
            }
        }
    }
}

} // verus!
verus! {

/// 1 when the action presses `k`, else 0.
pub open spec fn press_count(a: KeyAction, k: Key) -> int {
    if a == KeyAction::Key(k, Direction::Press) || a == KeyAction::GuardedPress(k) {
        1
    } else {
        0
    }
}

/// 1 when the action releases `k`, else 0.
pub open spec fn release_count(a: KeyAction, k: Key) -> int {
    if a == KeyAction::Key(k, Direction::Release) || a == KeyAction::GuardedRelease(k) {
        1
    } else {
        0
    }
}

/// How many times the actions press `k`.
pub open spec fn presses_of(acts: Seq<KeyAction>, k: Key) -> int
    decreases acts.len(),
{
    if acts.len() == 0 {
        0
    } else {
        presses_of(acts.drop_last(), k) + press_count(acts.last(), k)
    }
}

/// How many times the actions release `k`.
pub open spec fn releases_of_key(acts: Seq<KeyAction>, k: Key) -> int
    decreases acts.len(),
{
    if acts.len() == 0 {
        0
    } else {
        releases_of_key(acts.drop_last(), k) + release_count(acts.last(), k)
    }
}

/// How many times `k` occurs in `keys`.
pub open spec fn key_count(keys: Seq<Key>, k: Key) -> int
    decreases keys.len(),
{
    if keys.len() == 0 {
        0
    } else {
        key_count(keys.drop_last(), k) + if keys.last() == k {
            1int
        } else {
            0int
        }
    }
}

/// The failure's own keys are modifiers that occur once: a modifier released
/// early or left stuck is one of the combination's modifiers, listed once.
pub open spec fn failure_fits(mods: Seq<Key>, f: KeyCombinationFailure) -> bool
    decreases f,
{
    match f {
        KeyCombinationFailure::ReleasedModifierEarly(e) => key_count(mods, e) == 1,
        KeyCombinationFailure::ModifierStuck(t) => key_count(mods, t) == 1,
        KeyCombinationFailure::Compound(subs) => compound_fits(mods, subs@),
        _ => true,
    }
}

pub open spec fn compound_fits(mods: Seq<Key>, subs: Seq<KeyCombinationFailure>) -> bool
    decreases subs,
{
    if subs.len() == 0 {
        true
    } else {
        compound_fits(mods, subs.drop_last()) && failure_fits(mods, subs.last())
    }
}

proof fn lemma_counts_concat(a: Seq<KeyAction>, b: Seq<KeyAction>, k: Key)
    ensures
        presses_of(a + b, k) == presses_of(a, k) + presses_of(b, k),
        releases_of_key(a + b, k) == releases_of_key(a, k) + releases_of_key(b, k),
    decreases b.len(),
{
    if b.len() == 0 {
        assert(a + b =~= a);
    } else {
        lemma_counts_concat(a, b.drop_last(), k);
        assert((a + b).drop_last() =~= a + b.drop_last());
        assert((a + b).last() == b.last());
    }
}

proof fn lemma_key_count_concat(a: Seq<Key>, b: Seq<Key>, k: Key)
    ensures
        key_count(a + b, k) == key_count(a, k) + key_count(b, k),
    decreases b.len(),
{
    if b.len() == 0 {
        assert(a + b =~= a);
    } else {
        lemma_key_count_concat(a, b.drop_last(), k);
        assert((a + b).drop_last() =~= a + b.drop_last());
        assert((a + b).last() == b.last());
    }
}

proof fn lemma_counts_one(x: KeyAction, k: Key)
    ensures
        presses_of(seq![x], k) == press_count(x, k),
        releases_of_key(seq![x], k) == release_count(x, k),
{
    assert(seq![x].drop_last() =~= Seq::<KeyAction>::empty());
    assert(seq![x].last() == x);
    assert(presses_of(Seq::<KeyAction>::empty(), k) == 0);
    assert(releases_of_key(Seq::<KeyAction>::empty(), k) == 0);
}

proof fn lemma_counts_two(x: KeyAction, y: KeyAction, k: Key)
    ensures
        presses_of(seq![x, y], k) == press_count(x, k) + press_count(y, k),
        releases_of_key(seq![x, y], k) == release_count(x, k) + release_count(y, k),
{
    assert(seq![x, y] =~= seq![x] + seq![y]);
    lemma_counts_concat(seq![x], seq![y], k);
    lemma_counts_one(x, k);
    lemma_counts_one(y, k);
}

proof fn lemma_counts_tap(key: Key, lo: u64, hi: u64, k: Key)
    ensures
        presses_of(tap_spec(key, lo, hi), k) == (if key == k { 1int } else { 0int }),
        releases_of_key(tap_spec(key, lo, hi), k) == (if key == k { 1int } else { 0int }),
{
    let t = tap_spec(key, lo, hi);
    assert(t =~= seq![t[0], t[1]] + seq![t[2]]);
    lemma_counts_concat(seq![t[0], t[1]], seq![t[2]], k);
    lemma_counts_two(t[0], t[1], k);
    lemma_counts_one(t[2], k);
}

proof fn lemma_counts_guarded_presses(mods: Seq<Key>, k: Key)
    ensures
        presses_of(guarded_presses(mods), k) == key_count(mods, k),
        releases_of_key(guarded_presses(mods), k) == 0,
    decreases mods.len(),
{
    if mods.len() > 0 {
        let m = mods.drop_last();
        let two = seq![KeyAction::GuardedPress(mods.last()), pause(15, 45)];
        lemma_counts_guarded_presses(m, k);
        lemma_counts_concat(guarded_presses(m), two, k);
        lemma_counts_two(two[0], two[1], k);
    }
}

proof fn lemma_counts_guarded_releases(mods: Seq<Key>, k: Key)
    ensures
        presses_of(guarded_releases(mods), k) == 0,
        releases_of_key(guarded_releases(mods), k) == key_count(mods, k),
    decreases mods.len(),
{
    if mods.len() > 0 {
        let m = mods.drop_last();
        let two = seq![pause(15, 45), KeyAction::GuardedRelease(mods.last())];
        lemma_counts_guarded_releases(m, k);
        lemma_counts_concat(two, guarded_releases(m), k);
        lemma_counts_two(two[0], two[1], k);
    }
}

proof fn lemma_counts_plain_presses(mods: Seq<Key>, skip: Option<Key>, k: Key)
    ensures
        presses_of(plain_presses(mods, skip), k) == (if skip == Some(k) {
            0
        } else {
            key_count(mods, k)
        }),
        releases_of_key(plain_presses(mods, skip), k) == 0,
    decreases mods.len(),
{
    if mods.len() > 0 {
        let m = mods.drop_last();
        let x = mods.last();
        let tail = if skip == Some(x) {
            Seq::<KeyAction>::empty()
        } else {
            seq![KeyAction::Key(x, Direction::Press), pause(15, 44)]
        };
        lemma_counts_plain_presses(m, skip, k);
        assert(plain_presses(mods, skip) == plain_presses(m, skip) + tail);
        lemma_counts_concat(plain_presses(m, skip), tail, k);
        if skip != Some(x) {
            lemma_counts_two(tail[0], tail[1], k);
        }
    }
}

proof fn lemma_counts_plain_releases(mods: Seq<Key>, skip: Option<Key>, k: Key)
    ensures
        presses_of(plain_releases(mods, skip), k) == 0,
        releases_of_key(plain_releases(mods, skip), k) == (if skip == Some(k) {
            0
        } else {
            key_count(mods, k)
        }),
    decreases mods.len(),
{
    if mods.len() > 0 {
        let m = mods.drop_last();
        let x = mods.last();
        let head = if skip == Some(x) {
            Seq::<KeyAction>::empty()
        } else {
            seq![pause(15, 44), KeyAction::Key(x, Direction::Release)]
        };
        lemma_counts_plain_releases(m, skip, k);
        assert(plain_releases(mods, skip) == head + plain_releases(m, skip));
        lemma_counts_concat(head, plain_releases(m, skip), k);
        if skip != Some(x) {
            lemma_counts_two(head[0], head[1], k);
        }
    }
}

proof fn lemma_counts_stuck_releases(keys: Seq<Key>, k: Key)
    ensures
        presses_of(stuck_releases(keys), k) == 0,
        releases_of_key(stuck_releases(keys), k) == key_count(keys, k),
    decreases keys.len(),
{
    if keys.len() > 0 {
        let m = keys.drop_last();
        let two = seq![KeyAction::Key(keys.last(), Direction::Release), pause(100, 199)];
        lemma_counts_stuck_releases(m, k);
        lemma_counts_concat(stuck_releases(m), two, k);
        lemma_counts_two(two[0], two[1], k);
    }
}

/// A failure's mistaken sequence presses each key as often as it releases
/// it, except the stuck modifiers, each pressed once more than released.
proof fn lemma_failure_counts(mods: Seq<Key>, key: Key, f: KeyCombinationFailure, k: Key)
    requires
        failure_fits(mods, f),
    ensures
        presses_of(failure_actions(mods, key, f), k) - releases_of_key(failure_actions(mods, key, f), k)
            == key_count(stuck_keys(f), k),
    decreases f,
{
    lemma_counts_tap(key, 20, 59, k);
    match f {
        KeyCombinationFailure::MissedModifier(m) => {
            let a = plain_presses(mods, Some(m));
            let b = tap_spec(key, 20, 59);
            let c = plain_releases(mods, Some(m));
            lemma_counts_concat(a + b, c, k);
            lemma_counts_concat(a, b, k);
            lemma_counts_plain_presses(mods, Some(m), k);
            lemma_counts_plain_releases(mods, Some(m), k);
            assert(stuck_keys(f) =~= Seq::<Key>::empty());
        },
        KeyCombinationFailure::WrongKeyTap(w) => {
            let a = plain_presses(mods, None);
            let b = tap_spec(w, 20, 59);
            let c = plain_releases(mods, None);
            lemma_counts_tap(w, 20, 59, k);
            lemma_counts_concat(a + b, c, k);
            lemma_counts_concat(a, b, k);
            lemma_counts_plain_presses(mods, None, k);
            lemma_counts_plain_releases(mods, None, k);
            assert(stuck_keys(f) =~= Seq::<Key>::empty());
        },
        KeyCombinationFailure::ReleasedModifierEarly(e) => {
            let a = plain_presses(mods, None);
            let e2 = seq![KeyAction::Key(e, Direction::Release), pause(10, 29)];
            let b = tap_spec(key, 20, 59);
            let c = plain_releases(mods, Some(e));
            lemma_counts_concat(a + e2 + b, c, k);
            lemma_counts_concat(a + e2, b, k);
            lemma_counts_concat(a, e2, k);
            lemma_counts_two(e2[0], e2[1], k);
            lemma_counts_plain_presses(mods, None, k);
            lemma_counts_plain_releases(mods, Some(e), k);
            assert(stuck_keys(f) =~= Seq::<Key>::empty());
        },
        KeyCombinationFailure::ModifierStuck(t) => {
            let a = plain_presses(mods, None);
            let b = tap_spec(key, 20, 59);
            let c = plain_releases(mods, Some(t));
            lemma_counts_concat(a + b, c, k);
            lemma_counts_concat(a, b, k);
            lemma_counts_plain_presses(mods, None, k);
            lemma_counts_plain_releases(mods, Some(t), k);
            assert(seq![t].drop_last() =~= Seq::<Key>::empty());
            assert(key_count(Seq::<Key>::empty(), k) == 0);
            assert(seq![t].last() == t);
            assert(key_count(seq![t], k) == if t == k { 1int } else { 0int });
        },
        KeyCombinationFailure::Compound(subs) => {
            lemma_compound_counts(mods, key, subs@, k);
        },
    }
}

proof fn lemma_compound_counts(
    mods: Seq<Key>,
    key: Key,
    subs: Seq<KeyCombinationFailure>,
    k: Key,
)
    requires
        compound_fits(mods, subs),
    ensures
        presses_of(compound_failure_actions(mods, key, subs), k) - releases_of_key(
            compound_failure_actions(mods, key, subs),
            k,
        ) == key_count(compound_stuck_keys(subs), k),
    decreases subs,
{
    if subs.len() > 0 {
        let first = compound_failure_actions(mods, key, subs.drop_last());
        let f = failure_actions(mods, key, subs.last());
        lemma_compound_counts(mods, key, subs.drop_last(), k);
        lemma_failure_counts(mods, key, subs.last(), k);
        lemma_counts_concat(first + f, seq![pause(50, 50)], k);
        lemma_counts_concat(first, f, k);
        lemma_counts_one(pause(50, 50), k);
        lemma_key_count_concat(compound_stuck_keys(subs.drop_last()), stuck_keys(subs.last()), k);
    }
}

/// Whatever failure is drawn, a humanized key combination presses every key
/// exactly as many times as it releases it, provided a modifier that the
/// failure releases early or leaves stuck occurs once among the modifiers:
/// the built-in recovery releases every stuck modifier.
pub proof fn lemma_humanized_combination_balances_presses(
    mods: Seq<Key>,
    key: Key,
    failure: Option<KeyCombinationFailure>,
    k: Key,
)
    requires
        failure matches Some(f) ==> failure_fits(mods, f),
    ensures
        presses_of(humanized_combination(mods, key, failure), k) == releases_of_key(
            humanized_combination(mods, key, failure),
            k,
        ),
{
    let p = guarded_presses(mods);
    let t = tap_spec(key, 20, 60);
    let r = guarded_releases(mods);
    let n = normal_combination(mods, key);
    lemma_counts_concat(p + t, r, k);
    lemma_counts_concat(p, t, k);
    lemma_counts_guarded_presses(mods, k);
    lemma_counts_guarded_releases(mods, k);
    lemma_counts_tap(key, 20, 60, k);
    match failure {
        None => {},
        Some(f) => {
            let a = failure_actions(mods, key, f);
            let repair = match f {
                KeyCombinationFailure::WrongKeyTap(_) => seq![
                    KeyAction::Key(Key::Backspace, Direction::Press),
                    pause(20, 49),
                    KeyAction::Key(Key::Backspace, Direction::Release),
                    pause(100, 199),
                ],
                KeyCombinationFailure::ModifierStuck(t) => stuck_releases(seq![t]),
                KeyCombinationFailure::Compound(_) => stuck_releases(stuck_keys(f)),
                _ => seq![],
            };
            assert(default_recovery(mods, key, f) == seq![pause(200, 350)] + repair + n);
            assert(a + default_recovery(mods, key, f) =~= a + seq![pause(200, 350)] + repair + n);
            lemma_counts_concat(a + seq![pause(200, 350)] + repair, n, k);
            lemma_counts_concat(a + seq![pause(200, 350)], repair, k);
            lemma_counts_concat(a, seq![pause(200, 350)], k);
            lemma_counts_one(pause(200, 350), k);
            lemma_failure_counts(mods, key, f, k);
            match f {
                KeyCombinationFailure::WrongKeyTap(_) => {
                    assert(repair =~= seq![repair[0], repair[1]] + seq![repair[2], repair[3]]);
                    lemma_counts_concat(seq![repair[0], repair[1]], seq![repair[2], repair[3]], k);
                    lemma_counts_two(repair[0], repair[1], k);
                    lemma_counts_two(repair[2], repair[3], k);
                    assert(stuck_keys(f) =~= Seq::<Key>::empty());
                },
                KeyCombinationFailure::ModifierStuck(t) => {
                    lemma_counts_stuck_releases(seq![t], k);
                },
                KeyCombinationFailure::Compound(_) => {
                    lemma_counts_stuck_releases(stuck_keys(f), k);
                },
                _ => {
                    assert(stuck_keys(f) =~= Seq::<Key>::empty());
                    assert(repair =~= Seq::<KeyAction>::empty());
                },
            }
        },
    }
}

} // verus!
verus! {

/// An action that is neither the caller's recovery nor typing: a key, a
/// guarded modifier or a pause.
pub open spec fn is_key_step(a: KeyAction) -> bool {
    !(a is Recover) && !(a is Type)
}

/// Every action is a key step.
pub open spec fn only_key_steps(acts: Seq<KeyAction>) -> bool {
    forall|k: int| 0 <= k < acts.len() ==> is_key_step(#[trigger] acts[k])
}

proof fn lemma_key_steps_concat(a: Seq<KeyAction>, b: Seq<KeyAction>)
    requires
        only_key_steps(a),
        only_key_steps(b),
    ensures
        only_key_steps(a + b),
{
    assert forall|k: int| 0 <= k < (a + b).len() implies is_key_step(#[trigger] (a + b)[k]) by {
        if k < a.len() {
            assert((a + b)[k] == a[k]);
        } else {
            assert((a + b)[k] == b[k - a.len()]);
        }
    }
}

proof fn lemma_key_steps_two(x: KeyAction, y: KeyAction)
    requires
        is_key_step(x),
        is_key_step(y),
    ensures
        only_key_steps(seq![x, y]),
{
    let s = seq![x, y];
    assert forall|k: int| 0 <= k < s.len() implies is_key_step(#[trigger] s[k]) by {
        if k == 0 {
            assert(s[k] == x);
        } else {
            assert(s[k] == y);
        }
    }
}

proof fn lemma_key_steps_tap(key: Key, lo: u64, hi: u64)
    ensures
        only_key_steps(tap_spec(key, lo, hi)),
{
    let t = tap_spec(key, lo, hi);
    assert forall|k: int| 0 <= k < t.len() implies is_key_step(#[trigger] t[k]) by {
        if k == 0 {
            assert(t[k] == KeyAction::Key(key, Direction::Press));
        } else if k == 1 {
            assert(t[k] == pause(lo, hi));
        } else {
            assert(t[k] == KeyAction::Key(key, Direction::Release));
        }
    }
}

proof fn lemma_key_steps_guarded(mods: Seq<Key>)
    ensures
        only_key_steps(guarded_presses(mods)),
        only_key_steps(guarded_releases(mods)),
    decreases mods.len(),
{
    if mods.len() > 0 {
        let m = mods.drop_last();
        lemma_key_steps_guarded(m);
        lemma_key_steps_two(KeyAction::GuardedPress(mods.last()), pause(15, 45));
        lemma_key_steps_two(pause(15, 45), KeyAction::GuardedRelease(mods.last()));
        lemma_key_steps_concat(
            guarded_presses(m),
            seq![KeyAction::GuardedPress(mods.last()), pause(15, 45)],
        );
        lemma_key_steps_concat(
            seq![pause(15, 45), KeyAction::GuardedRelease(mods.last())],
            guarded_releases(m),
        );
    } else {
        assert(guarded_presses(mods) =~= Seq::<KeyAction>::empty());
        assert(guarded_releases(mods) =~= Seq::<KeyAction>::empty());
    }
}

proof fn lemma_key_steps_plain(mods: Seq<Key>, skip: Option<Key>)
    ensures
        only_key_steps(plain_presses(mods, skip)),
        only_key_steps(plain_releases(mods, skip)),
    decreases mods.len(),
{
    if mods.len() > 0 {
        let m = mods.drop_last();
        let x = mods.last();
        lemma_key_steps_plain(m, skip);
        lemma_key_steps_two(KeyAction::Key(x, Direction::Press), pause(15, 44));
        lemma_key_steps_two(pause(15, 44), KeyAction::Key(x, Direction::Release));
        let tail = if skip == Some(x) {
            Seq::<KeyAction>::empty()
        } else {
            seq![KeyAction::Key(x, Direction::Press), pause(15, 44)]
        };
        let head = if skip == Some(x) {
            Seq::<KeyAction>::empty()
        } else {
            seq![pause(15, 44), KeyAction::Key(x, Direction::Release)]
        };
        assert(plain_presses(mods, skip) == plain_presses(m, skip) + tail);
        assert(plain_releases(mods, skip) == head + plain_releases(m, skip));
        lemma_key_steps_concat(plain_presses(m, skip), tail);
        lemma_key_steps_concat(head, plain_releases(m, skip));
    } else {
        assert(plain_presses(mods, skip) =~= Seq::<KeyAction>::empty());
        assert(plain_releases(mods, skip) =~= Seq::<KeyAction>::empty());
    }
}

proof fn lemma_key_steps_normal(mods: Seq<Key>, key: Key)
    ensures
        only_key_steps(normal_combination(mods, key)),
{
    lemma_key_steps_guarded(mods);
    lemma_key_steps_tap(key, 20, 60);
    lemma_key_steps_concat(guarded_presses(mods), tap_spec(key, 20, 60));
    lemma_key_steps_concat(guarded_presses(mods) + tap_spec(key, 20, 60), guarded_releases(mods));
}

proof fn lemma_key_steps_failure(mods: Seq<Key>, key: Key, f: KeyCombinationFailure)
    ensures
        only_key_steps(failure_actions(mods, key, f)),
    decreases f,
{
    lemma_key_steps_tap(key, 20, 59);
    match f {
        KeyCombinationFailure::MissedModifier(m) => {
            lemma_key_steps_plain(mods, Some(m));
            lemma_key_steps_concat(plain_presses(mods, Some(m)), tap_spec(key, 20, 59));
            lemma_key_steps_concat(
                plain_presses(mods, Some(m)) + tap_spec(key, 20, 59),
                plain_releases(mods, Some(m)),
            );
        },
        KeyCombinationFailure::WrongKeyTap(w) => {
            lemma_key_steps_plain(mods, None);
            lemma_key_steps_tap(w, 20, 59);
            lemma_key_steps_concat(plain_presses(mods, None), tap_spec(w, 20, 59));
            lemma_key_steps_concat(
                plain_presses(mods, None) + tap_spec(w, 20, 59),
                plain_releases(mods, None),
            );
        },
        KeyCombinationFailure::ReleasedModifierEarly(e) => {
            let e2 = seq![KeyAction::Key(e, Direction::Release), pause(10, 29)];
            lemma_key_steps_plain(mods, None);
            lemma_key_steps_plain(mods, Some(e));
            lemma_key_steps_two(e2[0], e2[1]);
            lemma_key_steps_concat(plain_presses(mods, None), e2);
            lemma_key_steps_concat(plain_presses(mods, None) + e2, tap_spec(key, 20, 59));
            lemma_key_steps_concat(
                plain_presses(mods, None) + e2 + tap_spec(key, 20, 59),
                plain_releases(mods, Some(e)),
            );
        },
        KeyCombinationFailure::ModifierStuck(t) => {
            lemma_key_steps_plain(mods, None);
            lemma_key_steps_plain(mods, Some(t));
            lemma_key_steps_concat(plain_presses(mods, None), tap_spec(key, 20, 59));
            lemma_key_steps_concat(
                plain_presses(mods, None) + tap_spec(key, 20, 59),
                plain_releases(mods, Some(t)),
            );
        },
        KeyCombinationFailure::Compound(subs) => {
            lemma_key_steps_compound(mods, key, subs@);
        },
    }
}

proof fn lemma_key_steps_compound(mods: Seq<Key>, key: Key, subs: Seq<KeyCombinationFailure>)
    ensures
        only_key_steps(compound_failure_actions(mods, key, subs)),
    decreases subs,
{
    if subs.len() > 0 {
        let first = compound_failure_actions(mods, key, subs.drop_last());
        let f = failure_actions(mods, key, subs.last());
        lemma_key_steps_compound(mods, key, subs.drop_last());
        lemma_key_steps_failure(mods, key, subs.last());
        let p = seq![pause(50, 50)];
        assert(only_key_steps(p)) by {
            assert(p[0] == pause(50, 50));
        }
        lemma_key_steps_concat(first, f);
        lemma_key_steps_concat(first + f, p);
    } else {
        assert(compound_failure_actions(mods, key, subs) =~= Seq::<KeyAction>::empty());
    }
}

/// The caller's recovery runs at most once in a key combination with
/// caller-supplied failures: exactly once, right after the mistaken sequence
/// and its pause, when a failure was drawn, and never otherwise (so never
/// when failures are bypassed and none is drawn).
pub proof fn lemma_flexible_combination_recovers_once(
    mods: Seq<Key>,
    key: Key,
    failure: Option<KeyCombinationFailure>,
)
    ensures
        forall|i: int|
            0 <= i < flexible_combination(mods, key, failure).len() ==> (#[trigger] flexible_combination(
                mods,
                key,
                failure,
            )[i] is Recover <==> (failure matches Some(f) && i == failure_actions(mods, key, f).len()
                + 1)),
{
    let plan = flexible_combination(mods, key, failure);
    let n = normal_combination(mods, key);
    lemma_key_steps_normal(mods, key);
    match failure {
        None => {
            assert forall|i: int| 0 <= i < plan.len() implies !(#[trigger] plan[i] is Recover) by {
                assert(is_key_step(n[i]));
            }
        },
        Some(f) => {
            let a = failure_actions(mods, key, f);
            lemma_key_steps_failure(mods, key, f);
            let mid = seq![pause(200, 350), KeyAction::Recover];
            assert forall|i: int| 0 <= i < plan.len() implies (#[trigger] plan[i] is Recover <==> i
                == a.len() + 1) by {
                if i < a.len() {
                    assert(plan[i] == a[i]);
                    assert(is_key_step(a[i]));
                } else if i == a.len() {
                    assert(plan[i] == mid[0]);
                } else if i == a.len() + 1 {
                    assert(plan[i] == mid[1]);
                } else {
                    assert(plan[i] == n[i - a.len() - 2]);
                    assert(is_key_step(n[i - a.len() - 2]));
                }
            }
        },
    }
}

} // verus!
verus! {

proof fn lemma_releases_are_guarded(mods: Seq<Key>)
    ensures
        forall|k: int|
            0 <= k < guarded_releases(mods).len() ==> (#[trigger] guarded_releases(mods)[k] is GuardedRelease
                || guarded_releases(mods)[k] is Pause),
    decreases mods.len(),
{
    if mods.len() > 0 {
        let m = mods.drop_last();
        lemma_releases_are_guarded(m);
        let two = seq![pause(15, 45), KeyAction::GuardedRelease(mods.last())];
        assert forall|k: int| 0 <= k < guarded_releases(mods).len() implies (
        #[trigger] guarded_releases(mods)[k] is GuardedRelease || guarded_releases(mods)[k] is Pause) by {
            if k < 2 {
                assert(guarded_releases(mods)[k] == two[k]);
            } else {
                assert(guarded_releases(mods)[k] == guarded_releases(m)[k - 2]);
            }
        }
    }
}

/// A plan that ends with the clean combination presses the key one last
/// time, while every modifier is held, whatever came before.
proof fn lemma_clean_suffix(start: Set<Key>, pre: Seq<KeyAction>, mods: Seq<Key>, key: Key)
    ensures
        ({
            let p = pre + normal_combination(mods, key);
            let i: int = (pre.len() + 2 * mods.len()) as int;
            &&& p[i] == KeyAction::Key(key, Direction::Press)
            &&& forall|j: int| i < j < p.len() ==> #[trigger] p[j] != KeyAction::Key(key, Direction::Press)
            &&& mods.to_set().subset_of(held_after(start, p.take(i)))
        }),
{
    let n = normal_combination(mods, key);
    let p = pre + n;
    let g = guarded_presses(mods);
    let t = tap_spec(key, 20, 60);
    let r = guarded_releases(mods);
    lemma_guarded_presses_split(mods, seq![]);
    lemma_guarded_releases_split(mods, seq![]);
    let i: int = (pre.len() + 2 * mods.len()) as int;
    assert(p[i] == t[0]);
    assert(p.take(i) =~= pre + g);
    lemma_held_after_concat(start, pre, g);
    lemma_guarded_presses_held(held_after(start, pre), mods);
    lemma_releases_are_guarded(mods);
    assert forall|j: int| i < j < p.len() implies #[trigger] p[j] != KeyAction::Key(key, Direction::Press) by {
        if j == i + 1 {
            assert(p[j] == t[1]);
        } else if j == i + 2 {
            assert(p[j] == t[2]);
        } else {
            assert(p[j] == r[j - i - 3]);
        }
    }
}

/// Whatever failure is drawn, a humanized combination ends with the clean
/// combination that `key_combination_normal_plan` gives: the built-in
/// recovery always retries the intended shortcut in full.
pub proof fn lemma_humanized_ends_with_clean_combination(
    mods: Seq<Key>,
    key: Key,
    failure: Option<KeyCombinationFailure>,
)
    ensures
        ({
            let p = humanized_combination(mods, key, failure);
            let n = normal_combination(mods, key);
            p.len() >= n.len() && p.subrange(p.len() - n.len(), p.len() as int) == n
        }),
{
    let p = humanized_combination(mods, key, failure);
    let n = normal_combination(mods, key);
    match failure {
        None => {
            assert(p.subrange(0, p.len() as int) =~= p);
        },
        Some(f) => {
            let pre = failure_actions(mods, key, f) + (default_recovery(mods, key, f).take(
                default_recovery(mods, key, f).len() - n.len(),
            ));
            let repair = match f {
                KeyCombinationFailure::WrongKeyTap(_) => seq![
                    KeyAction::Key(Key::Backspace, Direction::Press),
                    pause(20, 49),
                    KeyAction::Key(Key::Backspace, Direction::Release),
                    pause(100, 199),
                ],
                KeyCombinationFailure::ModifierStuck(t) => stuck_releases(seq![t]),
                KeyCombinationFailure::Compound(_) => stuck_releases(stuck_keys(f)),
                _ => seq![],
            };
            let front = failure_actions(mods, key, f) + seq![pause(200, 350)] + repair;
            assert(default_recovery(mods, key, f) == seq![pause(200, 350)] + repair + n);
            assert(p =~= front + n);
            assert(p.subrange(p.len() - n.len(), p.len() as int) =~= n);
        },
    }
}

/// Whatever failure is drawn, the last time a humanized combination presses
/// its key, every modifier is held (from whatever was held before): the
/// shortcut finally reaches the application with all its modifiers.
pub proof fn lemma_humanized_key_last_pressed_with_all_modifiers(
    start: Set<Key>,
    mods: Seq<Key>,
    key: Key,
    failure: Option<KeyCombinationFailure>,
)
    ensures
        ({
            let p = humanized_combination(mods, key, failure);
            exists|i: int|
                0 <= i < p.len() && #[trigger] p[i] == KeyAction::Key(key, Direction::Press) && (forall|j: int|
                    i < j < p.len() ==> #[trigger] p[j] != KeyAction::Key(key, Direction::Press))
                    && mods.to_set().subset_of(held_after(start, p.take(i)))
        }),
{
    let p = humanized_combination(mods, key, failure);
    let n = normal_combination(mods, key);
    lemma_humanized_ends_with_clean_combination(mods, key, failure);
    let pre = p.subrange(0, p.len() - n.len());
    assert(p =~= pre + n);
    lemma_clean_suffix(start, pre, mods, key);
    let i: int = (pre.len() + 2 * mods.len()) as int;
    lemma_guarded_presses_split(mods, seq![]);
    lemma_guarded_releases_split(mods, seq![]);
    assert(0 <= i < p.len());
    assert(p[i] == KeyAction::Key(key, Direction::Press));
    assert(forall|j: int| i < j < p.len() ==> #[trigger] p[j] != KeyAction::Key(key, Direction::Press));
    assert(mods.to_set().subset_of(held_after(start, p.take(i))));
}

/// After the caller's recovery, a key combination with caller-supplied
/// failures performs exactly the clean combination of
/// `key_combination_normal_plan`, and its last press of the key comes with
/// every modifier held.
pub proof fn lemma_flexible_retries_clean_combination_after_recovery(
    start: Set<Key>,
    mods: Seq<Key>,
    key: Key,
    failure: Option<KeyCombinationFailure>,
)
    ensures
        ({
            let p = flexible_combination(mods, key, failure);
            &&& forall|r: int|
                0 <= r < p.len() && #[trigger] p[r] is Recover ==> p.subrange(r + 1, p.len() as int)
                    == normal_combination(mods, key)
            &&& exists|i: int|
                0 <= i < p.len() && #[trigger] p[i] == KeyAction::Key(key, Direction::Press) && (forall|j: int|
                    i < j < p.len() ==> #[trigger] p[j] != KeyAction::Key(key, Direction::Press))
                    && mods.to_set().subset_of(held_after(start, p.take(i)))
        }),
{
    let p = flexible_combination(mods, key, failure);
    let n = normal_combination(mods, key);
    lemma_flexible_combination_recovers_once(mods, key, failure);
    let pre = match failure {
        None => Seq::<KeyAction>::empty(),
        Some(f) => failure_actions(mods, key, f) + seq![pause(200, 350), KeyAction::Recover],
    };
    assert(p =~= pre + n);
    assert forall|r: int| 0 <= r < p.len() && #[trigger] p[r] is Recover implies p.subrange(
        r + 1,
        p.len() as int,
    ) == n by {
        assert(r == pre.len() - 1);
        assert(p.subrange(r + 1, p.len() as int) =~= n);
    }
    lemma_clean_suffix(start, pre, mods, key);
    let i: int = (pre.len() + 2 * mods.len()) as int;
    lemma_guarded_presses_split(mods, seq![]);
    lemma_guarded_releases_split(mods, seq![]);
    assert(0 <= i < p.len());
    assert(p[i] == KeyAction::Key(key, Direction::Press));
    assert(forall|j: int| i < j < p.len() ==> #[trigger] p[j] != KeyAction::Key(key, Direction::Press));
    assert(mods.to_set().subset_of(held_after(start, p.take(i))));
}

} // verus!
verus! {

/// A wrong key tapped inside a combination is erased: after the wrong key
/// goes down, the built-in recovery presses Backspace, and only then retries
/// the clean combination.
pub proof fn lemma_wrong_key_tap_is_erased_before_retry(mods: Seq<Key>, key: Key, w: Key)
    ensures
        ({
            let p = humanized_combination(mods, key, Some(KeyCombinationFailure::WrongKeyTap(w)));
            let n = normal_combination(mods, key);
            exists|i: int, b: int|
                #![trigger p[i], p[b]]
                0 <= i < b && b + n.len() <= p.len() && p[i] == KeyAction::Key(w, Direction::Press)
                    && p[b] == KeyAction::Key(Key::Backspace, Direction::Press) && p.subrange(
                    p.len() - n.len(),
                    p.len() as int,
                ) == n
        }),
{
    let f = KeyCombinationFailure::WrongKeyTap(w);
    let p = humanized_combination(mods, key, Some(f));
    let n = normal_combination(mods, key);
    let pp = plain_presses(mods, None);
    let t = tap_spec(w, 20, 59);
    let pr = plain_releases(mods, None);
    let a = pp + t + pr;
    let repair = seq![
        KeyAction::Key(Key::Backspace, Direction::Press),
        pause(20, 49),
        KeyAction::Key(Key::Backspace, Direction::Release),
        pause(100, 199),
    ];
    assert(failure_actions(mods, key, f) == a);
    assert(default_recovery(mods, key, f) == seq![pause(200, 350)] + repair + n);
    let front = a + seq![pause(200, 350)] + repair;
    assert(p =~= front + n);
    let i = pp.len() as int;
    let b = (a.len() + 1) as int;
    assert(p[i] == t[0]);
    assert(p[b] == repair[0]);
    assert(p.subrange(p.len() - n.len(), p.len() as int) =~= n);
}

} // verus!
