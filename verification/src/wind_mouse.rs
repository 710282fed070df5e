use vstd::prelude::*;
use crate::random::random_u64_inclusive;
use crate::types::{DelayMs, GlidePoint, PathStep, Point};

verus! {

/// The wait after a step of the walk for a wait of `draw` ms drawn: halved,
/// but at least 2 ms, once the walk is within 15 px of the target.
pub open spec fn step_wait(draw: int, near_target: bool) -> int {
    if near_target {
        if draw / 2 < 2 {
            2
        } else {
            draw / 2
        }
    } else {
        draw
    }
}

/// The wait after a step of the walk (see `step_wait`).
pub fn step_wait_ms(draw: u32, near_target: bool) -> (wait: u32)
    ensures
        wait == step_wait(draw as int, near_target),
{
    if near_target {
        let half = draw / 2;
        if half < 2 {
            2
        } else {
            half
        }
    } else {
        draw
    }
}

/// The steps of the walk, each position with the wait drawn for it.
pub open spec fn glide_steps(g: Seq<GlidePoint>, draws: Seq<u64>) -> Seq<PathStep> {
    Seq::new(
        g.len(),
        |k: int|
            PathStep {
                point: g[k].point,
                delay: DelayMs(step_wait(draws[k] as int, g[k].near_target) as u32),
            },
    )
}

/// A human-like mouse path from `start` to `target`. `glide(start, target)`
/// gives the positions of the WindMouse physics walk (gravity toward the
/// target, random wind, damping and tremor) that follow the starting point.
/// When the cursor is already on the target, the path is the target alone
/// with no delay; otherwise it is the start with no delay, then each
/// position of the walk with a wait of 4–8 ms drawn for it (halved, but at
/// least 2 ms, within 15 px of the target), and, unless the walk already
/// ended on the target, a last step onto the target after 5–10 ms. Every
/// step after the first waits 2–10 ms.
pub fn generate_wind_mouse_path<G: Fn(Point, Point) -> Vec<GlidePoint>>(
    start: Point,
    target: Point,
    glide: &G,
) -> (path: Vec<PathStep>)
    requires
        call_requires(*glide, (start, target)),
    ensures
        path@.len() >= 1,
        path@[0].point == start,
        path@[0].delay.0 == 0,
        path@.last().point == target,
        forall|k: int| 1 <= k < path@.len() ==> 2 <= #[trigger] path@[k].delay.0 <= 10,
        start == target ==> path@ == seq![PathStep { point: target, delay: DelayMs(0) }],
        start != target ==> exists|g: Vec<GlidePoint>, draws: Seq<u64>|
            #![trigger call_ensures(*glide, (start, target), g), glide_steps(g@, draws)]
            call_ensures(*glide, (start, target), g) && draws.len() == g@.len() && (forall|k: int|
                0 <= k < draws.len() ==> 4 <= #[trigger] draws[k] <= 8) && {
                let body = seq![PathStep { point: start, delay: DelayMs(0) }] + glide_steps(
                    g@,
                    draws,
                );
                ||| (body.last().point == target && path@ == body)
                ||| (body.last().point != target && path@.drop_last() == body
                    && path@.last().point == target && 5 <= path@.last().delay.0 <= 10)
            },
{
    if start == target {
        let mut one: Vec<PathStep> = Vec::new();
        one.push(PathStep { point: target, delay: DelayMs(0) });
        assert(one@ =~= seq![PathStep { point: target, delay: DelayMs(0) }]);
        return one;
    }
    let g = glide(start, target);
    let mut path: Vec<PathStep> = Vec::new();
    path.push(PathStep { point: start, delay: DelayMs(0) });
    let ghost mut draws: Seq<u64> = Seq::empty();
    let mut i: usize = 0;
    while i < g.len()
        invariant
            i <= g@.len(),
            draws.len() == i,
            forall|k: int| 0 <= k < draws.len() ==> 4 <= #[trigger] draws[k] <= 8,
            path@ == seq![PathStep { point: start, delay: DelayMs(0) }] + glide_steps(
                g@.take(i as int),
                draws,
            ),
            forall|k: int| 1 <= k < path@.len() ==> 2 <= #[trigger] path@[k].delay.0 <= 8,
            path@[0].point == start,
            path@[0].delay.0 == 0,
        decreases g@.len() - i,
    {
        let d = random_u64_inclusive(4, 8);
        let step = g[i];
        let wait = step_wait_ms(d as u32, step.near_target);
        let ghost before = path@;
        path.push(PathStep { point: step.point, delay: DelayMs(wait) });
        proof {
            draws = draws.push(d);
        }
        i = i + 1;
        assert(path@ =~= seq![PathStep { point: start, delay: DelayMs(0) }] + glide_steps(
            g@.take(i as int),
            draws,
        ));
    }
    assert(g@.take(i as int) =~= g@);
    let ghost body = path@;
    let last = path[path.len() - 1].point;
    if last != target {
        let d = random_u64_inclusive(5, 10);
        path.push(PathStep { point: target, delay: DelayMs(d as u32) });
        assert(path@.drop_last() =~= body);
    }
    path
}

} // verus!
