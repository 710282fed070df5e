use vstd::prelude::*;
use crate::keyboard::{pause, KeyAction};
use crate::recovery::failures_enabled;
use crate::types::{Direction, Key};

verus! {

/// What was drawn for one character of humanized typing: whether it is
/// swapped with the next one, whether its key bounces, and the letter typed
/// by mistake in its place, if any. A later field counts only when the
/// earlier ones did not trigger; `transpose` counts only when a next
/// character exists.
#[derive(Debug, Clone, Copy, PartialEq, Eq, Structural)]
pub struct TypingRoll {
    pub transpose: bool,
    pub double_tap: bool,
    pub typo: Option<char>,
}

/// Backspace tapped once, followed by a pause of `min_ms..=max_ms`.
pub open spec fn erase_one(min_ms: u64, max_ms: u64) -> Seq<KeyAction> {
    seq![
        KeyAction::Key(Key::Backspace, Direction::Press),
        pause(20, 49),
        KeyAction::Key(Key::Backspace, Direction::Release),
        pause(min_ms, max_ms),
    ]
}

/// A character typed normally: the keystroke and a 50–140 ms gap.
pub open spec fn plain_char(c: char) -> Seq<KeyAction> {
    seq![KeyAction::Type(c), pause(50, 140)]
}

/// `n` typed before `c`, then the pause in which the swap is noticed.
pub open spec fn swapped_pair(c: char, n: char) -> Seq<KeyAction> {
    seq![KeyAction::Type(n), pause(50, 140), KeyAction::Type(c), pause(200, 399)]
}

/// `c` and the following `n` typed swapped, both erased, and retyped in order.
pub open spec fn transposition_actions(c: char, n: char) -> Seq<KeyAction> {
    swapped_pair(c, n) + erase_one(30, 79) + erase_one(30, 79) + seq![pause(150, 299)]
        + plain_char(c) + plain_char(n)
}

/// `c` typed twice by a bouncing key and the extra one erased.
pub open spec fn double_tap_actions(c: char) -> Seq<KeyAction> {
    seq![KeyAction::Type(c), pause(15, 44), KeyAction::Type(c), pause(150, 299)] + erase_one(
        100,
        199,
    )
}

/// The wrong letter `t` typed and erased.
pub open spec fn typo_actions(t: char) -> Seq<KeyAction> {
    seq![KeyAction::Type(t), pause(150, 299)] + erase_one(100, 199)
}

/// The keystrokes of humanized typing from position `i` of `chars` on.
pub open spec fn typing_from(chars: Seq<char>, rolls: Seq<TypingRoll>, i: int) -> Seq<KeyAction>
    decreases chars.len() - i,
{
    if i < 0 || i >= chars.len() {
        seq![]
    } else if rolls[i].transpose && i + 1 < chars.len() {
        transposition_actions(chars[i], chars[i + 1]) + typing_from(chars, rolls, i + 2)
    } else if rolls[i].double_tap {
        double_tap_actions(chars[i]) + typing_from(chars, rolls, i + 1)
    } else {
        (match rolls[i].typo {
            Some(t) => typo_actions(t),
            None => seq![],
        }) + plain_char(chars[i]) + typing_from(chars, rolls, i + 1)
    }
}

/// How one action changes the text on screen: a typed character is appended,
/// a Backspace press erases the last character.
pub open spec fn render_step(text: Seq<char>, a: KeyAction) -> Seq<char> {
    match a {
        KeyAction::Type(c) => text.push(c),
        KeyAction::Key(Key::Backspace, Direction::Press) | KeyAction::Key(
            Key::Backspace,
            Direction::Click,
        ) | KeyAction::GuardedPress(Key::Backspace) => if text.len() > 0 {
            text.drop_last()
        } else {
            text
        },
        _ => text,
    }
}

/// The text on screen after the actions, starting from `text`.
pub open spec fn rendered(text: Seq<char>, acts: Seq<KeyAction>) -> Seq<char>
    decreases acts.len(),
{
    if acts.len() == 0 {
        text
    } else {
        render_step(rendered(text, acts.drop_last()), acts.last())
    }
}

proof fn lemma_rendered_concat(text: Seq<char>, a: Seq<KeyAction>, b: Seq<KeyAction>)
    ensures
        rendered(text, a + b) == rendered(rendered(text, a), b),
    decreases b.len(),
{
    if b.len() == 0 {
        assert(a + b =~= a);
    } else {
        lemma_rendered_concat(text, a, b.drop_last());
        assert((a + b).drop_last() =~= a + b.drop_last());
        assert((a + b).last() == b.last());
    }
}

proof fn lemma_rendered_one(text: Seq<char>, x: KeyAction)
    ensures
        rendered(text, seq![x]) == render_step(text, x),
{
    assert(seq![x].drop_last() =~= Seq::<KeyAction>::empty());
    assert(rendered(text, Seq::<KeyAction>::empty()) == text);
    assert(seq![x].last() == x);
}

proof fn lemma_rendered_two(text: Seq<char>, x: KeyAction, y: KeyAction)
    ensures
        rendered(text, seq![x, y]) == render_step(render_step(text, x), y),
{
    assert(seq![x, y] =~= seq![x] + seq![y]);
    lemma_rendered_concat(text, seq![x], seq![y]);
    lemma_rendered_one(text, x);
    lemma_rendered_one(render_step(text, x), y);
}

proof fn lemma_rendered_four(
    text: Seq<char>,
    x: KeyAction,
    y: KeyAction,
    z: KeyAction,
    w: KeyAction,
)
    ensures
        rendered(text, seq![x, y, z, w]) == render_step(
            render_step(render_step(render_step(text, x), y), z),
            w,
        ),
{
    assert(seq![x, y, z, w] =~= seq![x, y] + seq![z, w]);
    lemma_rendered_concat(text, seq![x, y], seq![z, w]);
    lemma_rendered_two(text, x, y);
    lemma_rendered_two(render_step(render_step(text, x), y), z, w);
}

proof fn lemma_erase_one(text: Seq<char>, lo: u64, hi: u64)
    requires
        text.len() > 0,
    ensures
        rendered(text, erase_one(lo, hi)) == text.drop_last(),
{
    let e = erase_one(lo, hi);
    lemma_rendered_four(text, e[0], e[1], e[2], e[3]);
}

proof fn lemma_plain_char(text: Seq<char>, c: char)
    ensures
        rendered(text, plain_char(c)) == text.push(c),
{
    lemma_rendered_two(text, KeyAction::Type(c), pause(50, 140));
}

proof fn lemma_transposition(text: Seq<char>, c: char, n: char)
    ensures
        rendered(text, transposition_actions(c, n)) =~= text.push(c).push(n),
{
    let a = swapped_pair(c, n);
    let e = erase_one(30, 79);
    let p = seq![pause(150, 299)];
    lemma_rendered_four(text, a[0], a[1], a[2], a[3]);
    let t1 = text.push(n).push(c);
    lemma_erase_one(t1, 30, 79);
    assert(t1.drop_last() =~= text.push(n));
    lemma_erase_one(text.push(n), 30, 79);
    assert(text.push(n).drop_last() =~= text);
    lemma_rendered_one(text, pause(150, 299));
    lemma_plain_char(text, c);
    lemma_plain_char(text.push(c), n);
    lemma_rendered_concat(text, a, e);
    lemma_rendered_concat(text, a + e, e);
    lemma_rendered_concat(text, a + e + e, p);
    lemma_rendered_concat(text, a + e + e + p, plain_char(c));
    lemma_rendered_concat(text, a + e + e + p + plain_char(c), plain_char(n));
}

proof fn lemma_double_tap(text: Seq<char>, c: char)
    ensures
        rendered(text, double_tap_actions(c)) =~= text.push(c),
{
    let a = seq![KeyAction::Type(c), pause(15, 44), KeyAction::Type(c), pause(150, 299)];
    lemma_rendered_four(text, a[0], a[1], a[2], a[3]);
    lemma_erase_one(text.push(c).push(c), 100, 199);
    assert(text.push(c).push(c).drop_last() =~= text.push(c));
    lemma_rendered_concat(text, a, erase_one(100, 199));
}

proof fn lemma_typo(text: Seq<char>, t: char)
    ensures
        rendered(text, typo_actions(t)) =~= text,
{
    let a = seq![KeyAction::Type(t), pause(150, 299)];
    lemma_rendered_two(text, a[0], a[1]);
    lemma_erase_one(text.push(t), 100, 199);
    assert(text.push(t).drop_last() =~= text);
    lemma_rendered_concat(text, a, erase_one(100, 199));
}

/// Whatever mistakes were drawn, humanized typing corrects all of them: the
/// text on screen afterwards is the text before followed by exactly the
/// characters to type.
pub proof fn lemma_typing_renders_text(
    text: Seq<char>,
    chars: Seq<char>,
    rolls: Seq<TypingRoll>,
    i: int,
)
    requires
        0 <= i <= chars.len(),
        rolls.len() == chars.len(),
    ensures
        rendered(text, typing_from(chars, rolls, i)) =~= text + chars.subrange(i, chars.len() as int),
    decreases chars.len() - i,
{
    if i == chars.len() {
        assert(typing_from(chars, rolls, i) == Seq::<KeyAction>::empty());
    } else if rolls[i].transpose && i + 1 < chars.len() {
        let head = transposition_actions(chars[i], chars[i + 1]);
        lemma_transposition(text, chars[i], chars[i + 1]);
        let t2 = text.push(chars[i]).push(chars[i + 1]);
        lemma_typing_renders_text(t2, chars, rolls, i + 2);
        lemma_rendered_concat(text, head, typing_from(chars, rolls, i + 2));
        assert(t2 + chars.subrange(i + 2, chars.len() as int) =~= text + chars.subrange(
            i,
            chars.len() as int,
        ));
    } else if rolls[i].double_tap {
        let head = double_tap_actions(chars[i]);
        lemma_double_tap(text, chars[i]);
        let t1 = text.push(chars[i]);
        lemma_typing_renders_text(t1, chars, rolls, i + 1);
        lemma_rendered_concat(text, head, typing_from(chars, rolls, i + 1));
        assert(t1 + chars.subrange(i + 1, chars.len() as int) =~= text + chars.subrange(
            i,
            chars.len() as int,
        ));
    } else {
        let mistake = match rolls[i].typo {
            Some(t) => typo_actions(t),
            None => seq![],
        };
        match rolls[i].typo {
            Some(t) => lemma_typo(text, t),
            None => {},
        }
        assert(rendered(text, mistake) =~= text);
        lemma_plain_char(text, chars[i]);
        let t1 = text.push(chars[i]);
        lemma_typing_renders_text(t1, chars, rolls, i + 1);
        lemma_rendered_concat(text, mistake, plain_char(chars[i]));
        lemma_rendered_concat(text, mistake + plain_char(chars[i]), typing_from(chars, rolls, i + 1));
        assert(t1 + chars.subrange(i + 1, chars.len() as int) =~= text + chars.subrange(
            i,
            chars.len() as int,
        ));
    }
}

/// A keystroke of typing: a typed character, a press or release of
/// Backspace, or a pause.
pub open spec fn is_keystroke(a: KeyAction) -> bool {
    ||| a is Type
    ||| a == KeyAction::Key(Key::Backspace, Direction::Press)
    ||| a == KeyAction::Key(Key::Backspace, Direction::Release)
    ||| a is Pause
}

/// Every action is a keystroke of typing.
pub open spec fn only_keystrokes(acts: Seq<KeyAction>) -> bool {
    forall|k: int| 0 <= k < acts.len() ==> is_keystroke(#[trigger] acts[k])
}

proof fn lemma_only_keystrokes_concat(a: Seq<KeyAction>, b: Seq<KeyAction>)
    requires
        only_keystrokes(a),
        only_keystrokes(b),
    ensures
        only_keystrokes(a + b),
{
    assert forall|k: int| 0 <= k < (a + b).len() implies is_keystroke(#[trigger] (a + b)[k]) by {
        if k < a.len() {
            assert((a + b)[k] == a[k]);
        } else {
            assert((a + b)[k] == b[k - a.len()]);
        }
    }
}

/// Two actions in order.
spec fn pair(x: KeyAction, y: KeyAction) -> Seq<KeyAction> {
    seq![x, y]
}

proof fn lemma_keystrokes_two(x: KeyAction, y: KeyAction)
    requires
        is_keystroke(x),
        is_keystroke(y),
    ensures
        only_keystrokes(pair(x, y)),
{
    let s = pair(x, y);
    assert forall|k: int| 0 <= k < s.len() implies is_keystroke(#[trigger] s[k]) by {
        if k == 0 {
            assert(s[k] == x);
        } else {
            assert(s[k] == y);
        }
    }
}

proof fn lemma_erase_keystrokes(lo: u64, hi: u64)
    ensures
        only_keystrokes(erase_one(lo, hi)),
{
    let e = erase_one(lo, hi);
    lemma_keystrokes_two(KeyAction::Key(Key::Backspace, Direction::Press), pause(20, 49));
    lemma_keystrokes_two(KeyAction::Key(Key::Backspace, Direction::Release), pause(lo, hi));
    assert(e =~= pair(KeyAction::Key(Key::Backspace, Direction::Press), pause(20, 49)) + pair(
        KeyAction::Key(Key::Backspace, Direction::Release),
        pause(lo, hi),
    ));
    lemma_only_keystrokes_concat(
        pair(KeyAction::Key(Key::Backspace, Direction::Press), pause(20, 49)),
        pair(KeyAction::Key(Key::Backspace, Direction::Release), pause(lo, hi)),
    );
}

proof fn lemma_transposition_keystrokes(c: char, n: char)
    ensures
        only_keystrokes(transposition_actions(c, n)),
{
    let a = pair(KeyAction::Type(n), pause(50, 140));
    let b = pair(KeyAction::Type(c), pause(200, 399));
    lemma_keystrokes_two(KeyAction::Type(n), pause(50, 140));
    lemma_keystrokes_two(KeyAction::Type(c), pause(200, 399));
    assert(swapped_pair(c, n) =~= a + b);
    lemma_only_keystrokes_concat(a, b);
    let e1 = erase_one(30, 79);
    lemma_erase_keystrokes(30, 79);
    let p = seq![pause(150, 299)];
    assert(only_keystrokes(p)) by {
        assert(p[0] == pause(150, 299));
    }
    let pc = plain_char(c);
    let pn = plain_char(n);
    lemma_keystrokes_two(KeyAction::Type(c), pause(50, 140));
    lemma_keystrokes_two(KeyAction::Type(n), pause(50, 140));
    assert(pc == pair(KeyAction::Type(c), pause(50, 140)));
    assert(pn == pair(KeyAction::Type(n), pause(50, 140)));
    let sp = swapped_pair(c, n);
    lemma_only_keystrokes_concat(sp, e1);
    lemma_only_keystrokes_concat(sp + e1, e1);
    lemma_only_keystrokes_concat(sp + e1 + e1, p);
    lemma_only_keystrokes_concat(sp + e1 + e1 + p, pc);
    lemma_only_keystrokes_concat(sp + e1 + e1 + p + pc, pn);
}

proof fn lemma_double_tap_keystrokes(c: char)
    ensures
        only_keystrokes(double_tap_actions(c)),
{
    let a = pair(KeyAction::Type(c), pause(15, 44));
    let b = pair(KeyAction::Type(c), pause(150, 299));
    lemma_keystrokes_two(KeyAction::Type(c), pause(15, 44));
    lemma_keystrokes_two(KeyAction::Type(c), pause(150, 299));
    let head = seq![KeyAction::Type(c), pause(15, 44), KeyAction::Type(c), pause(150, 299)];
    assert(head =~= a + b);
    lemma_only_keystrokes_concat(a, b);
    lemma_erase_keystrokes(100, 199);
    lemma_only_keystrokes_concat(head, erase_one(100, 199));
}

proof fn lemma_typo_keystrokes(t: char)
    ensures
        only_keystrokes(typo_actions(t)),
{
    lemma_keystrokes_two(KeyAction::Type(t), pause(150, 299));
    assert(seq![KeyAction::Type(t), pause(150, 299)] =~= pair(KeyAction::Type(t), pause(150, 299)));
    lemma_erase_keystrokes(100, 199);
    lemma_only_keystrokes_concat(pair(KeyAction::Type(t), pause(150, 299)), erase_one(100, 199));
}

/// Humanized typing sends nothing but keystrokes: typed characters, presses
/// and releases of Backspace, and pauses.
pub proof fn lemma_typing_sends_only_keystrokes(chars: Seq<char>, rolls: Seq<TypingRoll>, i: int)
    ensures
        only_keystrokes(typing_from(chars, rolls, i)),
    decreases chars.len() - i,
{
    if i < 0 || i >= chars.len() {
    } else if rolls[i].transpose && i + 1 < chars.len() {
        lemma_transposition_keystrokes(chars[i], chars[i + 1]);
        lemma_typing_sends_only_keystrokes(chars, rolls, i + 2);
        lemma_only_keystrokes_concat(
            transposition_actions(chars[i], chars[i + 1]),
            typing_from(chars, rolls, i + 2),
        );
    } else if rolls[i].double_tap {
        lemma_double_tap_keystrokes(chars[i]);
        lemma_typing_sends_only_keystrokes(chars, rolls, i + 1);
        lemma_only_keystrokes_concat(double_tap_actions(chars[i]), typing_from(chars, rolls, i + 1));
    } else {
        let mistake = match rolls[i].typo {
            Some(t) => typo_actions(t),
            None => seq![],
        };
        match rolls[i].typo {
            Some(t) => lemma_typo_keystrokes(t),
            None => {},
        }
        assert(only_keystrokes(mistake));
        lemma_keystrokes_two(KeyAction::Type(chars[i]), pause(50, 140));
        assert(plain_char(chars[i]) == pair(KeyAction::Type(chars[i]), pause(50, 140)));
        lemma_only_keystrokes_concat(mistake, plain_char(chars[i]));
        lemma_typing_sends_only_keystrokes(chars, rolls, i + 1);
        lemma_only_keystrokes_concat(mistake + plain_char(chars[i]), typing_from(chars, rolls, i + 1));
    }
}

/// Each character typed once, followed by its 50–140 ms gap, from position `i` on.
pub open spec fn plain_typing_from(chars: Seq<char>, i: int) -> Seq<KeyAction>
    decreases chars.len() - i,
{
    if i < 0 || i >= chars.len() {
        seq![]
    } else {
        plain_char(chars[i]) + plain_typing_from(chars, i + 1)
    }
}

/// A roll with no mistake drawn.
pub open spec fn no_mistake(r: TypingRoll) -> bool {
    !r.transpose && !r.double_tap && r.typo is None
}

/// When no mistake is drawn for any character (failures disabled or
/// bypassed), humanized typing is plain typing: each character once, in
/// order, with no Backspace.
pub proof fn lemma_no_mistakes_is_plain_typing(chars: Seq<char>, rolls: Seq<TypingRoll>, i: int)
    requires
        forall|k: int| 0 <= k < chars.len() ==> no_mistake(#[trigger] rolls[k]),
    ensures
        typing_from(chars, rolls, i) == plain_typing_from(chars, i),
    decreases chars.len() - i,
{
    if 0 <= i < chars.len() {
        assert(no_mistake(rolls[i]));
        lemma_no_mistakes_is_plain_typing(chars, rolls, i + 1);
        assert(seq![] + plain_char(chars[i]) =~= plain_char(chars[i]));
    }
}

} // verus!
verus! {

/// The characters of a string, in order.
pub fn chars_of(text: &str) -> (v: Vec<char>)
    ensures
        v@ == text@,
{
    broadcast use vstd::string::axiom_spec_iter;
    let mut v: Vec<char> = Vec::new();
    for c in it: text.chars()
        invariant
            v@ == it.seq().take(it.index()),
    {
        v.push(c);
    }
    v
}

fn push_erase_one(plan: &mut Vec<KeyAction>, min_ms: u64, max_ms: u64)
    ensures
        final(plan)@ == old(plan)@ + erase_one(min_ms, max_ms),
{
    plan.push(KeyAction::Key(Key::Backspace, Direction::Press));
    plan.push(KeyAction::Pause { min_ms: 20, max_ms: 49 });
    plan.push(KeyAction::Key(Key::Backspace, Direction::Release));
    plan.push(KeyAction::Pause { min_ms, max_ms });
    assert(final(plan)@ =~= old(plan)@ + erase_one(min_ms, max_ms));
}

fn push_plain_char(plan: &mut Vec<KeyAction>, c: char)
    ensures
        final(plan)@ == old(plan)@ + plain_char(c),
{
    plan.push(KeyAction::Type(c));
    plan.push(KeyAction::Pause { min_ms: 50, max_ms: 140 });
    assert(final(plan)@ =~= old(plan)@ + plain_char(c));
}

fn push_transposition(plan: &mut Vec<KeyAction>, c: char, n: char)
    ensures
        final(plan)@ == old(plan)@ + transposition_actions(c, n),
{
    plan.push(KeyAction::Type(n));
    plan.push(KeyAction::Pause { min_ms: 50, max_ms: 140 });
    plan.push(KeyAction::Type(c));
    plan.push(KeyAction::Pause { min_ms: 200, max_ms: 399 });
    let ghost s1 = plan@;
    assert(s1 =~= old(plan)@ + swapped_pair(c, n));
    push_erase_one(plan, 30, 79);
    push_erase_one(plan, 30, 79);
    plan.push(KeyAction::Pause { min_ms: 150, max_ms: 299 });
    push_plain_char(plan, c);
    push_plain_char(plan, n);
    assert(final(plan)@ =~= old(plan)@ + transposition_actions(c, n));
}

fn push_double_tap(plan: &mut Vec<KeyAction>, c: char)
    ensures
        final(plan)@ == old(plan)@ + double_tap_actions(c),
{
    plan.push(KeyAction::Type(c));
    plan.push(KeyAction::Pause { min_ms: 15, max_ms: 44 });
    plan.push(KeyAction::Type(c));
    plan.push(KeyAction::Pause { min_ms: 150, max_ms: 299 });
    push_erase_one(plan, 100, 199);
    assert(final(plan)@ =~= old(plan)@ + double_tap_actions(c));
}

fn push_typo(plan: &mut Vec<KeyAction>, t: char)
    ensures
        final(plan)@ == old(plan)@ + typo_actions(t),
{
    plan.push(KeyAction::Type(t));
    plan.push(KeyAction::Pause { min_ms: 150, max_ms: 299 });
    push_erase_one(plan, 100, 199);
    assert(final(plan)@ =~= old(plan)@ + typo_actions(t));
}

/// The keystroke plan of humanized typing. `rolls[i]` holds what was drawn
/// for the `i`-th character of `text`. Each character is typed with a
/// 50–140 ms gap; a transposition types it after the next one, erases both
/// and retypes them in order; a double tap types it twice and erases one; a
/// typo types the wrong letter and erases it before the right one. The text
/// on screen afterwards is exactly `text`, whatever was drawn.
pub fn text_humanized_plan(text: &str, rolls: &Vec<TypingRoll>) -> (plan: Vec<KeyAction>)
    requires
        rolls@.len() == text@.len(),
    ensures
        plan@ == typing_from(text@, rolls@, 0),
        rendered(Seq::empty(), plan@) == text@,
{
    let chars = chars_of(text);
    let n = chars.len();
    let mut plan: Vec<KeyAction> = Vec::new();
    let mut i: usize = 0;
    while i < n
        invariant
            n == chars@.len(),
            chars@ == text@,
            rolls@.len() == n,
            i <= n,
            plan@ + typing_from(chars@, rolls@, i as int) == typing_from(chars@, rolls@, 0),
        decreases n - i,
    {
        let ghost before = plan@;
        let c = chars[i];
        let roll = rolls[i];
        if roll.transpose && i + 1 < n {
            push_transposition(&mut plan, c, chars[i + 1]);
            i = i + 2;
        } else if roll.double_tap {
            push_double_tap(&mut plan, c);
            i = i + 1;
        } else {
            match roll.typo {
                Some(t) => push_typo(&mut plan, t),
                None => {},
            }
            push_plain_char(&mut plan, c);
            i = i + 1;
            assert(plan@ + typing_from(chars@, rolls@, i as int) =~= before + typing_from(
                chars@,
                rolls@,
                i - 1,
            ));
        }
    }
    proof {
        lemma_typing_renders_text(Seq::empty(), chars@, rolls@, 0);
        assert(chars@.subrange(0, n as int) =~= chars@);
        assert(plan@ =~= plan@ + typing_from(chars@, rolls@, i as int));
    }
    plan
}

/// The plan of `text_humanized(text, allow_error)` on a device at the given
/// recovery depth: with mistakes enabled (allowed and not bypassed), the
/// plan for the rolls drawn; otherwise plain typing, whatever the rolls.
/// Either way the text on screen ends up as the text.
pub fn text_humanized_plan_for(
    text: &str,
    allow_error: bool,
    recovery_depth: usize,
    max_recovery_depth: usize,
    rolls: &Vec<TypingRoll>,
) -> (plan: Vec<KeyAction>)
    requires
        rolls@.len() == text@.len(),
    ensures
        failures_enabled(allow_error, recovery_depth, max_recovery_depth) ==> plan@ == typing_from(
            text@,
            rolls@,
            0,
        ),
        !failures_enabled(allow_error, recovery_depth, max_recovery_depth) ==> plan@
            == plain_typing_from(text@, 0),
        rendered(Seq::empty(), plan@) == text@,
{
    if failures_enabled(allow_error, recovery_depth, max_recovery_depth) {
        text_humanized_plan(text, rolls)
    } else {
        let mut none: Vec<TypingRoll> = Vec::new();
        let mut i: usize = 0;
        while i < rolls.len()
            invariant
                i <= rolls@.len(),
                none@.len() == i,
                forall|k: int| 0 <= k < i ==> no_mistake(#[trigger] none@[k]),
            decreases rolls@.len() - i,
        {
            none.push(TypingRoll { transpose: false, double_tap: false, typo: None });
            i = i + 1;
        }
        let plan = text_humanized_plan(text, &none);
        proof {
            lemma_no_mistakes_is_plain_typing(text@, none@, 0);
        }
        plan
    }
}

} // verus!
