//! Game time unit helpers.
//!
//! A time unit lasts `1/t` seconds; an action costing `cost` time units lasts
//! `cost/t` seconds.

use std::time::{Duration, Instant};
use vstd::prelude::*;

verus! {

/// The `Duration` that `Duration::from_nanos` builds from a nanosecond count.
pub uninterp spec fn duration_of_nanos(nanos: u64) -> Duration;

/// `Duration::from_nanos`: builds the duration of exactly `nanos` nanoseconds.
#[verifier::external_body]
fn duration_from_nanos(nanos: u64) -> (d: Duration)
    ensures
        d == duration_of_nanos(nanos),
{
    Duration::from_nanos(nanos)
}

/// Nanoseconds that an action of `cost_tu` time units lasts at divider `t`
/// (rounded down).
pub open spec fn action_nanos(t: u32, cost_tu: u32) -> int {
    (cost_tu * 1_000_000_000int) / (t as int)
}

/// Convert an action cost in time units into a wall-clock duration for divider `t`.
pub fn action_duration(t: u32, cost_tu: u32) -> (d: Duration)
    requires
        t > 0,
    ensures
        d == duration_of_nanos(action_nanos(t, cost_tu) as u64),
{
    if cost_tu == 0 {
        return duration_from_nanos(0);
    }
    let cost: u128 = cost_tu as u128;
    let divider: u128 = t as u128;
    assert(cost * 1_000_000_000 <= 4_294_967_295u128 * 1_000_000_000) by (nonlinear_arith)
        requires cost <= 4_294_967_295u128;
    let nanos: u128 = (cost * 1_000_000_000) / divider;
    assert(nanos as int <= cost * 1_000_000_000) by (nonlinear_arith)
        requires divider >= 1, nanos as int == (cost * 1_000_000_000) as int / divider as int;
    duration_from_nanos(nanos as u64)
}

/// Duration of one time unit at divider `t`.
pub fn time_unit_duration(t: u32) -> (d: Duration)
    requires
        t > 0,
    ensures
        d == duration_of_nanos(action_nanos(t, 1) as u64),
{
    action_duration(t, 1)
}

/// `std::time::Instant`, carried through the command queue as an opaque value.
#[verifier::external_type_specification]
#[verifier::external_body]
pub struct ExInstant(Instant);

/// What `Instant::checked_add` returns for `at` and `d`.
pub uninterp spec fn instant_after(at: Instant, d: Duration) -> Option<Instant>;

/// `Instant::checked_add`: the instant `d` after `at`, or `None` when it cannot
/// be represented.
#[verifier::external_body]
pub(crate) fn instant_checked_add(at: Instant, d: Duration) -> (r: Option<Instant>)
    ensures
        r == instant_after(at, d),
{
    at.checked_add(d)
}

/// What `<Instant as PartialOrd>::lt` returns for `a` and `b`.
pub uninterp spec fn instant_earlier(a: Instant, b: Instant) -> bool;

/// `a < b` on instants.
#[verifier::external_body]
pub(crate) fn instant_lt(a: Instant, b: Instant) -> (r: bool)
    ensures
        r == instant_earlier(a, b),
{
    a < b
}

} // verus!
