use vstd::prelude::*;
use crate::types::DelayMs;

verus! {

/// `v` brought into `lo..=hi`.
pub open spec fn clamp_spec(v: int, lo: int, hi: int) -> int {
    if v < lo {
        lo
    } else if v > hi {
        hi
    } else {
        v
    }
}

pub(crate) fn clamp_i32(v: i32, lo: i32, hi: i32) -> (r: i32)
    requires
        lo <= hi,
    ensures
        r == clamp_spec(v as int, lo as int, hi as int),
{
    if v < lo {
        lo
    } else if v > hi {
        hi
    } else {
        v
    }
}

/// A draw from a normal distribution, kept within `min..=max`. `normal`
/// gives a draw from the normal distribution of the given mean and standard
/// deviation, rounded to the nearest integer; it is consulted only when the
/// bounds leave room (`min < max`), and otherwise `min` is returned.
pub fn sample_gaussian_clamped<F: Fn(i32, i32) -> i32>(
    mean: i32,
    std_dev: i32,
    min: i32,
    max: i32,
    normal: &F,
) -> (r: i32)
    requires
        forall|m: i32, s: i32| call_requires(*normal, (m, s)),
    ensures
        min >= max ==> r == min,
        min < max ==> min <= r <= max,
        min < max ==> exists|d: i32|
            #[trigger] call_ensures(*normal, (mean, std_dev), d) && r == clamp_spec(d as int, min as int, max as int),
{
    if min >= max {
        return min;
    }
    let d = normal(mean, std_dev);
    clamp_i32(d, min, max)
}

/// The milliseconds of a pause drawn from a normal distribution around
/// `mean` with standard deviation `std_dev_ms`, kept between a third of the
/// mean and three times the mean (the bounds and parameters taken as `i32`).
pub fn gaussian_delay_ms<F: Fn(i32, i32) -> i32>(mean: DelayMs, std_dev_ms: u64, normal: &F) -> (ms: u64)
    requires
        mean.0 * 3 <= u32::MAX,
        forall|m: i32, s: i32| call_requires(*normal, (m, s)),
    ensures
        ((mean.0 / 3) as i32) >= ((mean.0 * 3) as i32) ==> ms == mean.0 / 3,
        ((mean.0 / 3) as i32) < ((mean.0 * 3) as i32) ==> mean.0 / 3 <= ms <= ((mean.0 * 3) as i32),
        ((mean.0 / 3) as i32) < ((mean.0 * 3) as i32) ==> exists|d: i32|
            #[trigger] call_ensures(*normal, (mean.0 as i32, std_dev_ms as i32), d) && ms == clamp_spec(
                d as int,
                (mean.0 / 3) as int,
                (mean.0 * 3) as i32 as int,
            ),
{
    let v = sample_gaussian_clamped(
        mean.0 as i32,
        std_dev_ms as i32,
        (mean.0 / 3) as i32,
        (mean.0 * 3) as i32,
        normal,
    );
    v as u64
}

} // verus!
