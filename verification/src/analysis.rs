use vstd::prelude::*;
use crate::types::Point;

verus! {

/// The squared distance between two points.
pub open spec fn dist2(a: Point, b: Point) -> int {
    (a.x - b.x) * (a.x - b.x) + (a.y - b.y) * (a.y - b.y)
}

fn dist2_exceeds(a: Point, b: Point, limit: i128) -> (r: bool)
    ensures
        r == (dist2(a, b) > limit),
{
    let dx: i128 = a.x as i128 - b.x as i128;
    let dy: i128 = a.y as i128 - b.y as i128;
    assert(0 <= dx * dx <= 0x1_0000_0000_0000_0000) by (nonlinear_arith)
        requires
            -0x1_0000_0000 <= dx <= 0x1_0000_0000,
    ;
    assert(0 <= dy * dy <= 0x1_0000_0000_0000_0000) by (nonlinear_arith)
        requires
            -0x1_0000_0000 <= dy <= 0x1_0000_0000,
    ;
    dx * dx + dy * dy > limit
}

/// The first sample from `i` on that lies more than 5 px from the first
/// sample, or the number of samples when there is none.
pub open spec fn first_far(s: Seq<(u128, Point)>, i: int) -> int
    decreases s.len() - i,
{
    if i < 0 || i >= s.len() {
        s.len() as int
    } else if dist2(s[i].1, s[0].1) > 25 {
        i
    } else {
        first_far(s, i + 1)
    }
}

/// Whether sample `i` lies more than 2 px from one of the twenty samples before it.
pub open spec fn moving_at(s: Seq<(u128, Point)>, i: int) -> bool {
    exists|j: int| #![trigger s[j]]
        (if i >= 20 { i - 20 } else { 0 }) <= j <= i && dist2(s[j].1, s[i].1) > 4
}

/// The last sample in `lo..i` at which the cursor is still moving, or -1.
pub open spec fn last_moving(s: Seq<(u128, Point)>, lo: int, i: int) -> int
    decreases i - lo,
{
    if i <= lo {
        -1
    } else if moving_at(s, i - 1) {
        i - 1
    } else {
        last_moving(s, lo, i - 1)
    }
}

/// The first and last index of the active part of a recording: from five
/// samples before the cursor first leaves a 5 px radius of its starting
/// point, to five samples after it last moved more than 2 px within twenty
/// samples.
pub open spec fn active_range(s: Seq<(u128, Point)>) -> (int, int) {
    let f = first_far(s, 0);
    let start = if f < s.len() {
        if f >= 5 {
            f - 5
        } else {
            0
        }
    } else {
        0
    };
    let k = last_moving(s, start, s.len() as int);
    let end = if k >= 0 {
        if k + 5 < s.len() - 1 {
            k + 5
        } else {
            s.len() - 1
        }
    } else {
        s.len() - 1
    };
    (start, end)
}

/// The active part of a recording of timed cursor positions; the whole
/// recording when it has fewer than two samples or no active part.
pub open spec fn active_movement(s: Seq<(u128, Point)>) -> Seq<(u128, Point)> {
    if s.len() < 2 {
        s
    } else {
        let (start, end) = active_range(s);
        if start >= end {
            s
        } else {
            s.subrange(start, end + 1)
        }
    }
}

fn copy_range(samples: &[(u128, Point)], lo: usize, hi: usize) -> (v: Vec<(u128, Point)>)
    requires
        lo <= hi <= samples@.len(),
    ensures
        v@ == samples@.subrange(lo as int, hi as int),
{
    let mut v: Vec<(u128, Point)> = Vec::new();
    let mut i: usize = lo;
    while i < hi
        invariant
            lo <= i <= hi,
            hi <= samples@.len(),
            v@ == samples@.subrange(lo as int, i as int),
        decreases hi - i,
    {
        v.push(samples[i]);
        assert(v@ =~= samples@.subrange(lo as int, i + 1));
        i = i + 1;
    }
    v
}

fn moving_at_exec(samples: &[(u128, Point)], i: usize) -> (r: bool)
    requires
        i < samples@.len(),
    ensures
        r == moving_at(samples@, i as int),
{
    let lo: usize = if i >= 20 { i - 20 } else { 0 };
    let cur = samples[i].1;
    let mut j: usize = lo;
    while j <= i
        invariant
            lo <= j <= i + 1,
            i < samples@.len(),
            lo == (if i >= 20 { i - 20 } else { 0 }),
            cur == samples@[i as int].1,
            forall|k: int| lo <= k < j ==> dist2(#[trigger] samples@[k].1, cur) <= 4,
        decreases i + 1 - j,
    {
        if dist2_exceeds(samples[j].1, cur, 4) {
            return true;
        }
        j = j + 1;
    }
    assert(!moving_at(samples@, i as int)) by {
        if moving_at(samples@, i as int) {
            let k = choose|k: int| #![trigger samples@[k]]
                (if i >= 20 { i - 20 } else { 0 }) <= k <= i && dist2(samples@[k].1, samples@[i as int].1) > 4;
            assert(dist2(samples@[k].1, cur) <= 4);
        }
    }
    false
}

/// The active part of a recording of timed cursor positions: from five
/// samples before the cursor first leaves a 5 px radius of where it started
/// to five samples after it last moved more than 2 px within twenty samples.
/// Recordings of fewer than two samples, and those with no active part, are
/// returned whole.
pub fn filter_active_movement(samples: &[(u128, Point)]) -> (active: Vec<(u128, Point)>)
    ensures
        active@ == active_movement(samples@),
{
    let n = samples.len();
    if n < 2 {
        return copy_range(samples, 0, n);
    }
    let start_pt = samples[0].1;
    let mut start_idx: usize = 0;
    let mut i: usize = 0;
    while i < n
        invariant_except_break
            start_idx == 0,
        invariant
            n == samples@.len(),
            n >= 2,
            i <= n,
            start_pt == samples@[0].1,
            first_far(samples@, i as int) == first_far(samples@, 0),
        ensures
            start_idx == active_range(samples@).0,
        decreases n - i,
    {
        if dist2_exceeds(samples[i].1, start_pt, 25) {
            start_idx = if i >= 5 { i - 5 } else { 0 };
            break;
        }
        i = i + 1;
    }
    assert(start_idx == active_range(samples@).0);
    let mut end_idx: usize = n - 1;
    let mut k: usize = n;
    while k > start_idx
        invariant_except_break
            end_idx == n - 1,
        invariant
            n == samples@.len(),
            n >= 2,
            start_idx <= k <= n,
            start_idx == active_range(samples@).0,
            last_moving(samples@, start_idx as int, k as int) == last_moving(
                samples@,
                start_idx as int,
                n as int,
            ),
        ensures
            end_idx == active_range(samples@).1,
        decreases k,
    {
        if moving_at_exec(samples, k - 1) {
            end_idx = if (n - 1) - (k - 1) > 5 { k - 1 + 5 } else { n - 1 };
            break;
        }
        k = k - 1;
    }
    assert(end_idx == active_range(samples@).1);
    if start_idx >= end_idx {
        return copy_range(samples, 0, n);
    }
    copy_range(samples, start_idx, end_idx + 1)
}

/// The positions recorded at times within `start..=end`, in recording order.
pub open spec fn window_points(s: Seq<(u128, Point)>, start: u128, end: u128) -> Seq<Point>
    decreases s.len(),
{
    if s.len() == 0 {
        seq![]
    } else {
        let rest = window_points(s.drop_last(), start, end);
        if start <= s.last().0 <= end {
            rest.push(s.last().1)
        } else {
            rest
        }
    }
}

/// The positions of the samples taken at times within `start..=end`, in
/// recording order: the points of one time window of a velocity profile.
pub fn points_in_window(samples: &[(u128, Point)], start: u128, end: u128) -> (pts: Vec<Point>)
    ensures
        pts@ == window_points(samples@, start, end),
{
    let mut pts: Vec<Point> = Vec::new();
    let mut i: usize = 0;
    while i < samples.len()
        invariant
            i <= samples@.len(),
            pts@ == window_points(samples@.take(i as int), start, end),
        decreases samples@.len() - i,
    {
        assert(samples@.take(i + 1).drop_last() =~= samples@.take(i as int));
        let (t, p) = samples[i];
        if start <= t && t <= end {
            pts.push(p);
        }
        i = i + 1;
    }
    assert(samples@.take(i as int) =~= samples@);
    pts
}

} // verus!
