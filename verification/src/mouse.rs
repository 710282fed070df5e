use vstd::prelude::*;
use crate::failures::ClickFailure;
use crate::random::random_i32_inclusive;
use crate::target_area::TargetArea;
use crate::types::{Button, Point};

verus! {

/// One step of a mouse plan, carried out in order by whoever drives the device.
#[derive(Debug)]
pub enum MouseAction {
    /// Glide along a human-like path to a point drawn from the area; when
    /// `allow_error` is set (and failures are not bypassed) the glide may
    /// overshoot first and correct.
    MoveToArea { area: TargetArea, allow_error: bool },
    /// Glide to a point drawn from the area and then pushed 12–25 px away in a
    /// random direction: a click that misses.
    MoveNearArea(TargetArea),
    /// Click the button where the cursor is.
    Click(Button),
    /// The pause around a click: drawn from a normal distribution around 80 ms
    /// with a 20 ms standard deviation, kept within 26–240 ms.
    ClickPause,
    /// Wait a uniformly drawn number of milliseconds in `min_ms..=max_ms`.
    Pause { min_ms: u64, max_ms: u64 },
    /// Run the caller's recovery routine inside a recovery context.
    Recover,
}

/// Two actions are the same step, areas compared by their contents.
pub open spec fn same_action(a: MouseAction, b: MouseAction) -> bool {
    match a {
        MouseAction::MoveToArea { area: x, allow_error: e } => b matches MouseAction::MoveToArea {
            area: y,
            allow_error: e2,
        } && x.same_as(y) && e == e2,
        MouseAction::MoveNearArea(x) => b matches MouseAction::MoveNearArea(y) && x.same_as(y),
        _ => a == b,
    }
}

/// Two plans are the same steps in the same order.
pub open spec fn same_plan(p: Seq<MouseAction>, q: Seq<MouseAction>) -> bool {
    &&& p.len() == q.len()
    &&& forall|i: int| 0 <= i < p.len() ==> #[trigger] same_action(p[i], q[i])
}

pub open spec fn mpause(min_ms: u64, max_ms: u64) -> MouseAction {
    MouseAction::Pause { min_ms, max_ms }
}

/// Moving onto the area without mistakes and clicking, with the usual pauses.
pub open spec fn click_at(area: TargetArea, button: Button) -> Seq<MouseAction> {
    seq![
        MouseAction::MoveToArea { area, allow_error: false },
        MouseAction::ClickPause,
        MouseAction::Click(button),
        MouseAction::ClickPause,
    ]
}

/// The mistaken actions that a click failure produces when aiming at `area`
/// with `button`.
pub open spec fn click_failure_actions(area: TargetArea, button: Button, f: ClickFailure) -> Seq<
    MouseAction,
>
    decreases f,
{
    match f {
        ClickFailure::Misclick => seq![
            MouseAction::MoveNearArea(area),
            MouseAction::ClickPause,
            MouseAction::Click(button),
        ],
        ClickFailure::MisclickTo(decoy) => seq![
            MouseAction::MoveToArea { area: decoy, allow_error: false },
            MouseAction::ClickPause,
            MouseAction::Click(button),
        ],
        ClickFailure::WrongButton(wrong) => seq![
            MouseAction::MoveToArea { area, allow_error: false },
            MouseAction::ClickPause,
            MouseAction::Click(wrong),
        ],
        ClickFailure::DoubleClick => seq![
            MouseAction::MoveToArea { area, allow_error: false },
            MouseAction::ClickPause,
            MouseAction::Click(button),
            mpause(80, 149),
            MouseAction::Click(button),
        ],
        ClickFailure::Compound(subs) => compound_click_actions(area, button, subs@),
    }
}

/// The sub-failures one after another, each followed by a 50 ms pause.
pub open spec fn compound_click_actions(
    area: TargetArea,
    button: Button,
    subs: Seq<ClickFailure>,
) -> Seq<MouseAction>
    decreases subs,
{
    if subs.len() == 0 {
        seq![]
    } else {
        compound_click_actions(area, button, subs.drop_last()) + click_failure_actions(
            area,
            button,
            subs.last(),
        ) + seq![mpause(50, 50)]
    }
}

/// The built-in recovery after a click failure: a 250–450 ms moment of
/// realisation, then the repair: aim again and click after a miss or a
/// compound mistake, click the right button after a wrong one, nothing after
/// a double click.
pub open spec fn default_click_recovery(area: TargetArea, button: Button, f: ClickFailure) -> Seq<
    MouseAction,
> {
    seq![mpause(250, 450)] + match f {
        ClickFailure::WrongButton(_) => seq![
            MouseAction::ClickPause,
            MouseAction::Click(button),
            MouseAction::ClickPause,
        ],
        ClickFailure::DoubleClick => seq![],
        _ => click_at(area, button),
    }
}

/// The plan of `click_area`: with no failure drawn, move (overshoot allowed
/// when `allow_error`) and click; otherwise the failure's mistaken actions
/// followed by the built-in recovery.
pub open spec fn click_area_actions(
    area: TargetArea,
    button: Button,
    allow_error: bool,
    failure: Option<ClickFailure>,
) -> Seq<MouseAction> {
    match failure {
        None => seq![
            MouseAction::MoveToArea { area, allow_error },
            MouseAction::ClickPause,
            MouseAction::Click(button),
            MouseAction::ClickPause,
        ],
        Some(f) => click_failure_actions(area, button, f) + default_click_recovery(area, button, f),
    }
}

/// The plan of `click_area_flexible`: with no failure drawn, move and click;
/// otherwise the mistaken actions, a 250–450 ms pause, the caller's recovery,
/// and a correct move and click.
pub open spec fn click_flexible_actions(
    area: TargetArea,
    button: Button,
    failure: Option<ClickFailure>,
) -> Seq<MouseAction> {
    match failure {
        None => click_at(area, button),
        Some(f) => click_failure_actions(area, button, f) + seq![
            mpause(250, 450),
            MouseAction::Recover,
        ] + click_at(area, button),
    }
}

proof fn lemma_same_as_refl(x: TargetArea)
    ensures
        x.same_as(x),
{
}

proof fn lemma_same_plan_refl(p: Seq<MouseAction>)
    ensures
        same_plan(p, p),
{
    assert forall|i: int| 0 <= i < p.len() implies #[trigger] same_action(p[i], p[i]) by {
        match p[i] {
            MouseAction::MoveToArea { area, .. } => lemma_same_as_refl(area),
            MouseAction::MoveNearArea(area) => lemma_same_as_refl(area),
            _ => {},
        }
    }
}

proof fn lemma_same_plan_push(p: Seq<MouseAction>, q: Seq<MouseAction>, x: MouseAction, y: MouseAction)
    requires
        same_plan(p, q),
        same_action(x, y),
    ensures
        same_plan(p.push(x), q.push(y)),
{
    assert forall|i: int| 0 <= i < p.push(x).len() implies #[trigger] same_action(
        p.push(x)[i],
        q.push(y)[i],
    ) by {
        if i < p.len() {
            assert(same_action(p[i], q[i]));
        }
    }
}

/// Appends a move to a copy of `area`.
fn push_move(
    plan: &mut Vec<MouseAction>,
    Ghost(target): Ghost<Seq<MouseAction>>,
    area: &TargetArea,
    allow_error: bool,
)
    requires
        same_plan(old(plan)@, target),
    ensures
        same_plan(final(plan)@, target.push(MouseAction::MoveToArea { area: *area, allow_error })),
{
    let d = area.duplicate();
    proof {
        lemma_same_plan_push(
            plan@,
            target,
            MouseAction::MoveToArea { area: d, allow_error },
            MouseAction::MoveToArea { area: *area, allow_error },
        );
    }
    plan.push(MouseAction::MoveToArea { area: d, allow_error });
}

fn push_move_near(
    plan: &mut Vec<MouseAction>,
    Ghost(target): Ghost<Seq<MouseAction>>,
    area: &TargetArea,
)
    requires
        same_plan(old(plan)@, target),
    ensures
        same_plan(final(plan)@, target.push(MouseAction::MoveNearArea(*area))),
{
    let d = area.duplicate();
    proof {
        lemma_same_plan_push(
            plan@,
            target,
            MouseAction::MoveNearArea(d),
            MouseAction::MoveNearArea(*area),
        );
    }
    plan.push(MouseAction::MoveNearArea(d));
}

/// Appends an action that holds no area.
fn push_plain(plan: &mut Vec<MouseAction>, Ghost(target): Ghost<Seq<MouseAction>>, a: MouseAction)
    requires
        same_plan(old(plan)@, target),
        !(a is MoveToArea),
        !(a is MoveNearArea),
    ensures
        same_plan(final(plan)@, target.push(a)),
{
    proof {
        lemma_same_plan_push(plan@, target, a, a);
    }
    plan.push(a);
}

fn push_click_failure(
    plan: &mut Vec<MouseAction>,
    Ghost(target): Ghost<Seq<MouseAction>>,
    area: &TargetArea,
    button: Button,
    failure: &ClickFailure,
)
    requires
        same_plan(old(plan)@, target),
    ensures
        same_plan(final(plan)@, target + click_failure_actions(*area, button, *failure)),
    decreases failure,
{
    let ghost mut t = target;
    match failure {
        ClickFailure::Misclick => {
            push_move_near(plan, Ghost(t), area);
            proof { t = t.push(MouseAction::MoveNearArea(*area)); }
        },
        ClickFailure::MisclickTo(decoy) => {
            push_move(plan, Ghost(t), decoy, false);
            proof { t = t.push(MouseAction::MoveToArea { area: *decoy, allow_error: false }); }
        },
        ClickFailure::WrongButton(_) | ClickFailure::DoubleClick => {
            push_move(plan, Ghost(t), area, false);
            proof { t = t.push(MouseAction::MoveToArea { area: *area, allow_error: false }); }
        },
        ClickFailure::Compound(_) => {},
    }
    match failure {
        ClickFailure::Compound(subs) => {
            let mut i: usize = 0;
            while i < subs.len()
                invariant
                    *failure == ClickFailure::Compound(*subs),
                    t == target,
                    i <= subs@.len(),
                    same_plan(plan@, target + compound_click_actions(*area, button, subs@.take(i as int))),
                decreases subs@.len() - i,
            {
                proof {
                    assert(decreases_to!(*failure => failure->Compound_0));
                    assert(decreases_to!(failure->Compound_0 => failure->Compound_0@));
                    assert(decreases_to!(failure->Compound_0@ => subs@[i as int]));
                    assert(subs@.take(i + 1).drop_last() =~= subs@.take(i as int));
                }
                let ghost t1 = target + compound_click_actions(*area, button, subs@.take(i as int));
                push_click_failure(plan, Ghost(t1), area, button, &subs[i]);
                let ghost t2 = t1 + click_failure_actions(*area, button, subs@[i as int]);
                push_plain(plan, Ghost(t2), MouseAction::Pause { min_ms: 50, max_ms: 50 });
                i = i + 1;
                assert(t2.push(mpause(50, 50)) =~= target + compound_click_actions(
                    *area,
                    button,
                    subs@.take(i as int),
                ));
            }
            assert(subs@.take(i as int) =~= subs@);
        },
        _ => {
            push_plain(plan, Ghost(t), MouseAction::ClickPause);
            proof { t = t.push(MouseAction::ClickPause); }
            let b = match failure {
                ClickFailure::WrongButton(w) => *w,
                _ => button,
            };
            push_plain(plan, Ghost(t), MouseAction::Click(b));
            proof { t = t.push(MouseAction::Click(b)); }
            match failure {
                ClickFailure::DoubleClick => {
                    push_plain(plan, Ghost(t), MouseAction::Pause { min_ms: 80, max_ms: 149 });
                    proof { t = t.push(mpause(80, 149)); }
                    push_plain(plan, Ghost(t), MouseAction::Click(button));
                    proof { t = t.push(MouseAction::Click(button)); }
                },
                _ => {},
            }
            assert(t =~= target + click_failure_actions(*area, button, *failure));
        },
    }
}

fn push_click_at(
    plan: &mut Vec<MouseAction>,
    Ghost(target): Ghost<Seq<MouseAction>>,
    area: &TargetArea,
    button: Button,
)
    requires
        same_plan(old(plan)@, target),
    ensures
        same_plan(final(plan)@, target + click_at(*area, button)),
{
    let ghost mut t = target;
    push_move(plan, Ghost(t), area, false);
    proof { t = t.push(MouseAction::MoveToArea { area: *area, allow_error: false }); }
    push_plain(plan, Ghost(t), MouseAction::ClickPause);
    proof { t = t.push(MouseAction::ClickPause); }
    push_plain(plan, Ghost(t), MouseAction::Click(button));
    proof { t = t.push(MouseAction::Click(button)); }
    push_plain(plan, Ghost(t), MouseAction::ClickPause);
    proof { t = t.push(MouseAction::ClickPause); }
    assert(t =~= target + click_at(*area, button));
}

fn push_default_click_recovery(
    plan: &mut Vec<MouseAction>,
    Ghost(target): Ghost<Seq<MouseAction>>,
    area: &TargetArea,
    button: Button,
    failure: &ClickFailure,
)
    requires
        same_plan(old(plan)@, target),
    ensures
        same_plan(final(plan)@, target + default_click_recovery(*area, button, *failure)),
{
    let ghost mut t = target;
    push_plain(plan, Ghost(t), MouseAction::Pause { min_ms: 250, max_ms: 450 });
    proof { t = t.push(mpause(250, 450)); }
    match failure {
        ClickFailure::WrongButton(_) => {
            push_plain(plan, Ghost(t), MouseAction::ClickPause);
            proof { t = t.push(MouseAction::ClickPause); }
            push_plain(plan, Ghost(t), MouseAction::Click(button));
            proof { t = t.push(MouseAction::Click(button)); }
            push_plain(plan, Ghost(t), MouseAction::ClickPause);
            proof { t = t.push(MouseAction::ClickPause); }
            assert(t =~= target + default_click_recovery(*area, button, *failure));
        },
        ClickFailure::DoubleClick => {
            assert(t =~= target + default_click_recovery(*area, button, *failure));
        },
        _ => {
            push_click_at(plan, Ghost(t), area, button);
            assert(t + click_at(*area, button) =~= target + default_click_recovery(
                *area,
                button,
                *failure,
            ));
        },
    }
}

/// The mouse plan of a humanized click on `area` with `button`. `failure` is
/// the click failure drawn for this call, if any (none is drawn unless
/// `allow_error` holds and failures are not bypassed): without one the
/// cursor moves onto the area (overshooting being allowed when
/// `allow_error`) and clicks between two click pauses; with one the plan is
/// the failure's mistaken actions followed by the built-in recovery.
pub fn click_area_plan(
    area: &TargetArea,
    button: Button,
    allow_error: bool,
    failure: Option<&ClickFailure>,
) -> (plan: Vec<MouseAction>)
    ensures
        same_plan(
            plan@,
            click_area_actions(
                *area,
                button,
                allow_error,
                match failure {
                    Some(f) => Some(*f),
                    None => None,
                },
            ),
        ),
{
    let mut plan: Vec<MouseAction> = Vec::new();
    let ghost mut t = Seq::<MouseAction>::empty();
    proof {
        lemma_same_plan_refl(t);
    }
    match failure {
        None => {
            push_move(&mut plan, Ghost(t), area, allow_error);
            proof { t = t.push(MouseAction::MoveToArea { area: *area, allow_error }); }
            push_plain(&mut plan, Ghost(t), MouseAction::ClickPause);
            proof { t = t.push(MouseAction::ClickPause); }
            push_plain(&mut plan, Ghost(t), MouseAction::Click(button));
            proof { t = t.push(MouseAction::Click(button)); }
            push_plain(&mut plan, Ghost(t), MouseAction::ClickPause);
            proof { t = t.push(MouseAction::ClickPause); }
            assert(t =~= click_area_actions(*area, button, allow_error, None));
        },
        Some(f) => {
            push_click_failure(&mut plan, Ghost(t), area, button, f);
            let ghost t1 = t + click_failure_actions(*area, button, *f);
            push_default_click_recovery(&mut plan, Ghost(t1), area, button, f);
            assert(t1 + default_click_recovery(*area, button, *f) =~= click_area_actions(
                *area,
                button,
                allow_error,
                Some(*f),
            ));
        },
    }
    plan
}

/// The mouse plan of a click with caller-supplied failures. `failure` is the
/// failure drawn, if any: without one the cursor moves onto the area without
/// mistakes and clicks; with one the plan is the mistaken actions, a
/// 250–450 ms pause, the caller's recovery, and a correct move and click.
pub fn click_area_flexible_plan(area: &TargetArea, button: Button, failure: Option<&ClickFailure>) -> (plan:
    Vec<MouseAction>)
    ensures
        same_plan(
            plan@,
            click_flexible_actions(
                *area,
                button,
                match failure {
                    Some(f) => Some(*f),
                    None => None,
                },
            ),
        ),
{
    let mut plan: Vec<MouseAction> = Vec::new();
    let ghost mut t = Seq::<MouseAction>::empty();
    proof {
        lemma_same_plan_refl(t);
    }
    match failure {
        None => {
            push_click_at(&mut plan, Ghost(t), area, button);
            assert(t + click_at(*area, button) =~= click_flexible_actions(*area, button, None));
        },
        Some(f) => {
            push_click_failure(&mut plan, Ghost(t), area, button, f);
            proof { t = t + click_failure_actions(*area, button, *f); }
            push_plain(&mut plan, Ghost(t), MouseAction::Pause { min_ms: 250, max_ms: 450 });
            proof { t = t.push(mpause(250, 450)); }
            push_plain(&mut plan, Ghost(t), MouseAction::Recover);
            proof { t = t.push(MouseAction::Recover); }
            push_click_at(&mut plan, Ghost(t), area, button);
            assert(t + click_at(*area, button) =~= click_flexible_actions(*area, button, Some(*f)));
        },
    }
    plan
}

pub open spec fn is_move(a: MouseAction) -> bool {
    a is MoveToArea || a is MoveNearArea
}

/// The plan ends with the intended click: its last click is `button`, no
/// move comes after it, and the last move went onto `area` itself.
pub open spec fn ends_with_click_on(plan: Seq<MouseAction>, area: TargetArea, button: Button) -> bool {
    exists|m: int, k: int|
        #![trigger plan[m], plan[k]]
        {
            &&& 0 <= m < k < plan.len()
            &&& plan[k] == MouseAction::Click(button)
            &&& (plan[m] matches MouseAction::MoveToArea { area: x, .. } && x.same_as(area))
            &&& forall|j: int| m < j < plan.len() ==> !is_move(#[trigger] plan[j])
            &&& forall|j: int| k < j < plan.len() ==> !(#[trigger] plan[j] is Click)
        }
}

proof fn lemma_ends_with_click_at(prefix: Seq<MouseAction>, area: TargetArea, button: Button)
    ensures
        ends_with_click_on(prefix + click_at(area, button), area, button),
{
    let p = prefix + click_at(area, button);
    let m = prefix.len() as int;
    lemma_same_as_refl(area);
    assert(p[m] == MouseAction::MoveToArea { area, allow_error: false });
    assert(p[m + 2] == MouseAction::Click(button));
    assert(forall|j: int| m < j < p.len() ==> !is_move(#[trigger] p[j]));
    assert(forall|j: int| m + 2 < j < p.len() ==> !(#[trigger] p[j] is Click));
}

/// Whatever click failure is drawn, a humanized click ends with the intended
/// button clicked after the cursor last moved onto the intended area: the
/// built-in recovery always repairs the mistake.
pub proof fn lemma_click_area_ends_with_intended_click(
    area: TargetArea,
    button: Button,
    allow_error: bool,
    failure: Option<ClickFailure>,
)
    ensures
        ends_with_click_on(click_area_actions(area, button, allow_error, failure), area, button),
{
    lemma_same_as_refl(area);
    let p = click_area_actions(area, button, allow_error, failure);
    match failure {
        None => {
            assert(p[2] == MouseAction::Click(button));
            assert(p[0] == MouseAction::MoveToArea { area, allow_error });
            assert(forall|j: int| 0 < j < p.len() ==> !is_move(#[trigger] p[j]));
            assert(forall|j: int| 2 < j < p.len() ==> !(#[trigger] p[j] is Click));
        },
        Some(f) => {
            let a = click_failure_actions(area, button, f);
            match f {
                ClickFailure::WrongButton(w) => {
                    assert(p[5] == MouseAction::Click(button));
                    assert(p[0] == MouseAction::MoveToArea { area, allow_error: false });
                    assert(forall|j: int| 0 < j < p.len() ==> !is_move(#[trigger] p[j]));
                    assert(forall|j: int| 5 < j < p.len() ==> !(#[trigger] p[j] is Click));
                },
                ClickFailure::DoubleClick => {
                    assert(p[4] == MouseAction::Click(button));
                    assert(p[0] == MouseAction::MoveToArea { area, allow_error: false });
                    assert(forall|j: int| 0 < j < p.len() ==> !is_move(#[trigger] p[j]));
                    assert(forall|j: int| 4 < j < p.len() ==> !(#[trigger] p[j] is Click));
                },
                _ => {
                    assert(p =~= (a + seq![mpause(250, 450)]) + click_at(area, button));
                    lemma_ends_with_click_at(a + seq![mpause(250, 450)], area, button);
                },
            }
        },
    }
}

/// Whatever failure is drawn and whatever the caller's recovery does to the
/// device, a click with caller-supplied failures ends with a correct move onto
/// the intended area and a click of the intended button.
pub proof fn lemma_click_flexible_ends_with_intended_click(
    area: TargetArea,
    button: Button,
    failure: Option<ClickFailure>,
)
    ensures
        ends_with_click_on(click_flexible_actions(area, button, failure), area, button),
{
    match failure {
        None => {
            assert(click_at(area, button) =~= Seq::<MouseAction>::empty() + click_at(area, button));
            lemma_ends_with_click_at(Seq::empty(), area, button);
        },
        Some(f) => {
            let pre = click_failure_actions(area, button, f) + seq![
                mpause(250, 450),
                MouseAction::Recover,
            ];
            lemma_ends_with_click_at(pre, area, button);
        },
    }
}

/// The sum of the scroll steps.
pub open spec fn total(steps: Seq<i32>) -> int
    decreases steps.len(),
{
    if steps.len() == 0 {
        0
    } else {
        total(steps.drop_last()) + steps.last()
    }
}

/// A step of a scroll of `length`: one to three notches, in the scroll's direction.
pub open spec fn valid_scroll_step(length: i32, s: i32) -> bool {
    if length > 0 {
        1 <= s <= 3
    } else {
        -3 <= s <= -1
    }
}

/// The size of a scroll's next step: the notches drawn, never more than
/// remain, in the direction of the scroll's `length`.
pub open spec fn scroll_step(length: int, remaining: int, draw: int) -> int {
    let mag = if remaining < 0 {
        -remaining
    } else {
        remaining
    };
    let size = if draw < mag {
        draw
    } else {
        mag
    };
    if length > 0 {
        size
    } else if length < 0 {
        -size
    } else {
        0
    }
}

/// The notches still to scroll after the steps that `draws` give.
pub open spec fn remaining_after(length: int, draws: Seq<i32>) -> int
    decreases draws.len(),
{
    if draws.len() == 0 {
        length
    } else {
        let r = remaining_after(length, draws.drop_last());
        r - scroll_step(length, r, draws.last() as int)
    }
}

/// The steps of a scroll of `length` for the notch counts drawn in turn,
/// one step per draw while notches remain; draws after the end are unused.
pub open spec fn steps_from_draws(length: int, draws: Seq<i32>) -> Seq<i32>
    decreases draws.len(),
{
    if draws.len() == 0 {
        seq![]
    } else {
        let r = remaining_after(length, draws.drop_last());
        let prev = steps_from_draws(length, draws.drop_last());
        if r == 0 {
            prev
        } else {
            prev.push(scroll_step(length, r, draws.last() as int) as i32)
        }
    }
}

/// The next step of a scroll of `length` with `remaining` notches left and
/// `draw` notches drawn.
fn next_scroll_step(length: i32, remaining: i32, draw: i32) -> (step: i32)
    requires
        length != i32::MIN,
        1 <= draw <= 3,
        length >= 0 ==> 0 <= remaining <= length,
        length <= 0 ==> length <= remaining <= 0,
    ensures
        step == scroll_step(length as int, remaining as int, draw as int),
{
    let magnitude: i32 = if remaining > 0 { remaining } else { -remaining };
    let size: i32 = if draw < magnitude { draw } else { magnitude };
    if length > 0 {
        size
    } else if length < 0 {
        -size
    } else {
        0
    }
}

/// The steps of a scroll of `length` for the given notch counts, each of one
/// to three: step `k` is the `k`-th count, cut to what remains, in the
/// scroll's direction; the steps stop once the length is covered.
pub fn scroll_steps_from_draws(length: i32, draws: &[i32]) -> (steps: Vec<i32>)
    requires
        length != i32::MIN,
        forall|k: int| 0 <= k < draws@.len() ==> 1 <= #[trigger] draws@[k] <= 3,
    ensures
        steps@ == steps_from_draws(length as int, draws@),
{
    let mut steps: Vec<i32> = Vec::new();
    let mut remaining: i32 = length;
    let mut i: usize = 0;
    while i < draws.len()
        invariant
            length != i32::MIN,
            forall|k: int| 0 <= k < draws@.len() ==> 1 <= #[trigger] draws@[k] <= 3,
            i <= draws@.len(),
            remaining == remaining_after(length as int, draws@.take(i as int)),
            steps@ == steps_from_draws(length as int, draws@.take(i as int)),
            length >= 0 ==> 0 <= remaining <= length,
            length <= 0 ==> length <= remaining <= 0,
        decreases draws@.len() - i,
    {
        assert(draws@.take(i + 1).drop_last() =~= draws@.take(i as int));
        assert(draws@.take(i + 1).last() == draws@[i as int]);
        if remaining != 0 {
            let step = next_scroll_step(length, remaining, draws[i]);
            steps.push(step);
            remaining = remaining - step;
        }
        i = i + 1;
    }
    assert(draws@.take(i as int) =~= draws@);
    steps
}

/// The notches of a scroll with inertia: `length` is split into steps of one
/// to three notches (drawn at random, never past the end), all in the
/// direction of `length`, that add up to `length`. A scroll of zero has no
/// steps. The steps are those that the notch counts drawn give, one count,
/// of one to three, drawn per step.
pub fn scroll_steps(length: i32) -> (steps: Vec<i32>)
    requires
        length != i32::MIN,
    ensures
        total(steps@) == length,
        length == 0 <==> steps@.len() == 0,
        forall|i: int| 0 <= i < steps@.len() ==> valid_scroll_step(length, #[trigger] steps@[i]),
        exists|draws: Seq<i32>|
            #[trigger] steps_from_draws(length as int, draws) == steps@ && draws.len() == steps@.len()
                && (forall|k: int| 0 <= k < draws.len() ==> 1 <= #[trigger] draws[k] <= 3),
{
    let mut steps: Vec<i32> = Vec::new();
    let mut remaining: i32 = length;
    let ghost mut draws: Seq<i32> = Seq::empty();
    while remaining != 0
        invariant
            length != i32::MIN,
            total(steps@) + remaining == length,
            length >= 0 ==> 0 <= remaining <= length,
            length <= 0 ==> length <= remaining <= 0,
            forall|i: int| 0 <= i < steps@.len() ==> valid_scroll_step(length, #[trigger] steps@[i]),
            length != 0 ==> (steps@.len() > 0 || remaining == length),
            length == 0 ==> steps@.len() == 0,
            draws.len() == steps@.len(),
            forall|k: int| 0 <= k < draws.len() ==> 1 <= #[trigger] draws[k] <= 3,
            remaining == remaining_after(length as int, draws),
            steps@ == steps_from_draws(length as int, draws),
        decreases if remaining >= 0 { remaining as int } else { -remaining },
    {
        let drawn = random_i32_inclusive(1, 3);
        let signed = next_scroll_step(length, remaining, drawn);
        let ghost before = steps@;
        let ghost old_draws = draws;
        proof {
            draws = draws.push(drawn);
            assert(draws.drop_last() =~= old_draws);
        }
        steps.push(signed);
        assert(steps@.drop_last() =~= before);
        remaining = remaining - signed;
    }
    steps
}

} // verus!
verus! {

/// No action is the caller's recovery.
pub open spec fn no_recover(acts: Seq<MouseAction>) -> bool {
    forall|k: int| 0 <= k < acts.len() ==> !(#[trigger] acts[k] is Recover)
}

proof fn lemma_no_recover_concat(a: Seq<MouseAction>, b: Seq<MouseAction>)
    requires
        no_recover(a),
        no_recover(b),
    ensures
        no_recover(a + b),
{
    assert forall|k: int| 0 <= k < (a + b).len() implies !(#[trigger] (a + b)[k] is Recover) by {
        if k < a.len() {
            assert((a + b)[k] == a[k]);
        } else {
            assert((a + b)[k] == b[k - a.len()]);
        }
    }
}

proof fn lemma_no_recover_failure(area: TargetArea, button: Button, f: ClickFailure)
    ensures
        no_recover(click_failure_actions(area, button, f)),
    decreases f,
{
    match f {
        ClickFailure::Compound(subs) => {
            lemma_no_recover_compound(area, button, subs@);
        },
        _ => {
            let acts = click_failure_actions(area, button, f);
            assert forall|k: int| 0 <= k < acts.len() implies !(#[trigger] acts[k] is Recover) by {
                match f {
                    ClickFailure::DoubleClick => {
                        assert(k == 0 || k == 1 || k == 2 || k == 3 || k == 4);
                    },
                    _ => {
                        assert(k == 0 || k == 1 || k == 2);
                    },
                }
            }
        },
    }
}

proof fn lemma_no_recover_compound(area: TargetArea, button: Button, subs: Seq<ClickFailure>)
    ensures
        no_recover(compound_click_actions(area, button, subs)),
    decreases subs,
{
    if subs.len() > 0 {
        let first = compound_click_actions(area, button, subs.drop_last());
        let f = click_failure_actions(area, button, subs.last());
        lemma_no_recover_compound(area, button, subs.drop_last());
        lemma_no_recover_failure(area, button, subs.last());
        let p = seq![mpause(50, 50)];
        assert(no_recover(p)) by {
            assert(p[0] == mpause(50, 50));
        }
        lemma_no_recover_concat(first, f);
        lemma_no_recover_concat(first + f, p);
    } else {
        assert(compound_click_actions(area, button, subs) =~= Seq::<MouseAction>::empty());
    }
}

/// The caller's recovery runs at most once in a click with caller-supplied
/// failures: exactly once, right after the mistaken actions and their pause,
/// when a failure was drawn, and never otherwise.
pub proof fn lemma_click_flexible_recovers_once(
    area: TargetArea,
    button: Button,
    failure: Option<ClickFailure>,
)
    ensures
        forall|i: int|
            0 <= i < click_flexible_actions(area, button, failure).len() ==> (
            #[trigger] click_flexible_actions(area, button, failure)[i] is Recover <==> (
            failure matches Some(f) && i == click_failure_actions(area, button, f).len() + 1)),
{
    let plan = click_flexible_actions(area, button, failure);
    let c = click_at(area, button);
    assert(no_recover(c)) by {
        assert forall|k: int| 0 <= k < c.len() implies !(#[trigger] c[k] is Recover) by {
            assert(k == 0 || k == 1 || k == 2 || k == 3);
        }
    }
    match failure {
        None => {},
        Some(f) => {
            let a = click_failure_actions(area, button, f);
            lemma_no_recover_failure(area, button, f);
            let mid = seq![mpause(250, 450), MouseAction::Recover];
            assert forall|i: int| 0 <= i < plan.len() implies (#[trigger] plan[i] is Recover <==> i
                == a.len() + 1) by {
                if i < a.len() {
                    assert(plan[i] == a[i]);
                } else if i == a.len() {
                    assert(plan[i] == mid[0]);
                } else if i == a.len() + 1 {
                    assert(plan[i] == mid[1]);
                } else {
                    assert(plan[i] == c[i - a.len() - 2]);
                }
            }
        },
    }
}

} // verus!
verus! {

/// One step of moving the cursor onto a point.
#[derive(Debug, Clone, Copy, PartialEq, Eq, Structural)]
pub enum MoveStep {
    /// Glide along a human-like path from one point to another.
    Glide { from: Point, to: Point },
    /// Wait a uniformly drawn number of milliseconds in `min_ms..=max_ms`.
    Pause { min_ms: u64, max_ms: u64 },
}

/// The moves onto `target` from `start`: a direct glide, or, when the hover
/// overshoots to `overshoot`, a glide there, a 120–219 ms moment of
/// realisation and a corrective glide onto the target.
pub open spec fn move_steps(start: Point, target: Point, overshoot: Option<Point>) -> Seq<MoveStep> {
    match overshoot {
        None => seq![MoveStep::Glide { from: start, to: target }],
        Some(o) => seq![
            MoveStep::Glide { from: start, to: o },
            MoveStep::Pause { min_ms: 120, max_ms: 219 },
            MoveStep::Glide { from: o, to: target },
        ],
    }
}

/// The moves of `move_to_area` from `start` onto the point `target` drawn
/// from the area; `overshoot` is the overshoot point when an overshoot was
/// drawn. Either way the last move is a glide that ends on the target.
pub fn move_to_area_plan(start: Point, target: Point, overshoot: Option<Point>) -> (plan: Vec<MoveStep>)
    ensures
        plan@ == move_steps(start, target, overshoot),
        plan@.last() matches MoveStep::Glide { to, .. } && to == target,
{
    let mut plan: Vec<MoveStep> = Vec::new();
    match overshoot {
        None => {
            plan.push(MoveStep::Glide { from: start, to: target });
        },
        Some(o) => {
            plan.push(MoveStep::Glide { from: start, to: o });
            plan.push(MoveStep::Pause { min_ms: 120, max_ms: 219 });
            plan.push(MoveStep::Glide { from: o, to: target });
        },
    }
    assert(plan@ =~= move_steps(start, target, overshoot));
    plan
}

} // verus!
verus! {

/// A misclick misses: the first click of a humanized click with a misclick
/// follows a move near the intended area, with no move onto the area
/// before it; the area is moved onto exactly once, after that click, so the
/// intended area is clicked only by the recovery.
pub proof fn lemma_misclick_misses_before_hitting(area: TargetArea, button: Button, allow_error: bool)
    ensures
        ({
            let p = click_area_actions(area, button, allow_error, Some(ClickFailure::Misclick));
            exists|c: int, m: int, t: int|
                #![trigger p[c], p[m], p[t]]
                0 <= m < c < t < p.len() && p[c] == MouseAction::Click(button) && (forall|j: int|
                    0 <= j < c ==> !(#[trigger] p[j] is Click) && !(p[j] is MoveToArea)) && (
                p[m] matches MouseAction::MoveNearArea(x) && x.same_as(area)) && (
                p[t] matches MouseAction::MoveToArea { area: y, .. } && y.same_as(area)) && (forall|j: int|
                    0 <= j < p.len() && j != t ==> !(#[trigger] p[j] is MoveToArea))
        }),
{
    let p = click_area_actions(area, button, allow_error, Some(ClickFailure::Misclick));
    lemma_same_as_refl(area);
    assert(p.len() == 8);
    assert(p[0] == MouseAction::MoveNearArea(area));
    assert(p[2] == MouseAction::Click(button));
    assert(p[4] == MouseAction::MoveToArea { area, allow_error: false });
    assert(forall|j: int| 0 <= j < 2 ==> !(#[trigger] p[j] is Click) && !(p[j] is MoveToArea));
    assert(forall|j: int| 0 <= j < p.len() && j != 4 ==> !(#[trigger] p[j] is MoveToArea));
}

/// After the caller's recovery, a click with caller-supplied failures moves
/// back onto the intended area before clicking the intended button, and
/// nothing moves the cursor after that move: whatever the recovery did with
/// the cursor, the intended click lands on the area.
pub proof fn lemma_click_flexible_moves_back_after_recovery(
    area: TargetArea,
    button: Button,
    failure: Option<ClickFailure>,
)
    ensures
        ({
            let p = click_flexible_actions(area, button, failure);
            forall|r: int|
                0 <= r < p.len() && #[trigger] p[r] is Recover ==> exists|m: int, k: int|
                    #![trigger p[m], p[k]]
                    r < m < k < p.len() && (p[m] matches MouseAction::MoveToArea { area: x, .. }
                        && x.same_as(area)) && p[k] == MouseAction::Click(button) && (forall|j: int|
                        r < j < k ==> !(#[trigger] p[j] is Click)) && (forall|j: int|
                        m < j < p.len() ==> !is_move(#[trigger] p[j]))
        }),
{
    let p = click_flexible_actions(area, button, failure);
    lemma_click_flexible_recovers_once(area, button, failure);
    lemma_same_as_refl(area);
    match failure {
        None => {},
        Some(f) => {
            let a = click_failure_actions(area, button, f);
            let mid = seq![mpause(250, 450), MouseAction::Recover];
            let c = click_at(area, button);
            assert(p =~= a + mid + c);
            assert forall|r: int| 0 <= r < p.len() && #[trigger] p[r] is Recover implies exists|
                m: int,
                k: int,
            |
                #![trigger p[m], p[k]]
                r < m < k < p.len() && (p[m] matches MouseAction::MoveToArea { area: x, .. }
                    && x.same_as(area)) && p[k] == MouseAction::Click(button) && (forall|j: int|
                    r < j < k ==> !(#[trigger] p[j] is Click)) && (forall|j: int|
                    m < j < p.len() ==> !is_move(#[trigger] p[j])) by {
                assert(r == a.len() + 1);
                let m = r + 1;
                let k = r + 3;
                assert(p[m] == c[0]);
                assert(p[r + 2] == c[1]);
                assert(p[k] == c[2]);
                assert(p[r + 4] == c[3]);
                assert(p.len() == r + 5);
                assert(forall|j: int| r < j < k ==> !(#[trigger] p[j] is Click));
                assert(forall|j: int| m < j < p.len() ==> !is_move(#[trigger] p[j]));
            }
        },
    }
}

} // verus!
verus! {

/// A click aimed at a decoy area by mistake clicks the decoy first: the
/// first click follows a move onto the decoy, with no move onto the intended
/// area before it, and the recovery then moves onto the intended area and
/// clicks it.
pub proof fn lemma_misclick_to_decoy_hits_decoy_first(
    area: TargetArea,
    decoy: TargetArea,
    button: Button,
    allow_error: bool,
)
    ensures
        ({
            let p = click_area_actions(area, button, allow_error, Some(ClickFailure::MisclickTo(decoy)));
            exists|c: int, m: int|
                #![trigger p[c], p[m]]
                0 <= m < c < p.len() && p[c] == MouseAction::Click(button) && (forall|j: int|
                    0 <= j < c ==> !(#[trigger] p[j] is Click)) && (p[m]
                    matches MouseAction::MoveToArea { area: x, .. } && x.same_as(decoy)) && (forall|j: int|
                    m < j < c ==> !is_move(#[trigger] p[j]))
        }),
        ends_with_click_on(
            click_area_actions(area, button, allow_error, Some(ClickFailure::MisclickTo(decoy))),
            area,
            button,
        ),
{
    let p = click_area_actions(area, button, allow_error, Some(ClickFailure::MisclickTo(decoy)));
    lemma_same_as_refl(decoy);
    assert(p[0] == MouseAction::MoveToArea { area: decoy, allow_error: false });
    assert(p[2] == MouseAction::Click(button));
    assert(forall|j: int| 0 <= j < 2 ==> !(#[trigger] p[j] is Click));
    assert(forall|j: int| 0 < j < 2 ==> !is_move(#[trigger] p[j]));
    lemma_click_area_ends_with_intended_click(area, button, allow_error, Some(ClickFailure::MisclickTo(decoy)));
}

} // verus!
