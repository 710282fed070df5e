use vstd::prelude::*;
use rand::RngExt;

verus! {

/// Calls `rand::rng().random_range(lo..=hi)` on `u64`: a uniformly drawn
/// integer of the inclusive range, which must not be empty (the call panics
/// on an empty range). Only the range is stated; the value depends on the
/// thread's random generator.
#[verifier::external_body]
pub(crate) fn random_u64_inclusive(lo: u64, hi: u64) -> (r: u64)
    requires
        lo <= hi,
    ensures
        lo <= r <= hi,
{
    rand::rng().random_range(lo..=hi)
}

/// Calls `rand::rng().random_range(lo..=hi)` on `u8`, as above.
#[verifier::external_body]
pub(crate) fn random_u8_inclusive(lo: u8, hi: u8) -> (r: u8)
    requires
        lo <= hi,
    ensures
        lo <= r <= hi,
{
    rand::rng().random_range(lo..=hi)
}

/// Calls `rand::rng().random_range(lo..=hi)` on `i32`, as above.
#[verifier::external_body]
pub(crate) fn random_i32_inclusive(lo: i32, hi: i32) -> (r: i32)
    requires
        lo <= hi,
    ensures
        lo <= r <= hi,
{
    rand::rng().random_range(lo..=hi)
}

/// A pause length drawn uniformly from `min_ms..=max_ms`.
pub fn random_pause_ms(min_ms: u64, max_ms: u64) -> (ms: u64)
    requires
        min_ms <= max_ms,
    ensures
        min_ms <= ms <= max_ms,
{
    random_u64_inclusive(min_ms, max_ms)
}

pub open spec fn is_ascii_lower(c: char) -> bool {
    'a' <= c <= 'z'
}

pub open spec fn is_ascii_upper(c: char) -> bool {
    'A' <= c <= 'Z'
}

/// The letter typed by mistake in place of `c`: a random lowercase ASCII
/// letter when `c` is a lowercase ASCII letter, a random uppercase one otherwise.
pub fn random_typo_char(c: char) -> (t: char)
    ensures
        is_ascii_lower(c) ==> is_ascii_lower(t),
        !is_ascii_lower(c) ==> is_ascii_upper(t),
{
    if 'a' <= c && c <= 'z' {
        let b = random_u8_inclusive(97, 122);
        b as char
    } else {
        let b = random_u8_inclusive(65, 90);
        b as char
    }
}

} // verus!
