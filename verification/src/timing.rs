//! The unit in which a duration is reported.

use vstd::prelude::*;

verus! {

/// A unit of time in a report.
#[derive(Clone, Copy, Debug, PartialEq, Eq, Structural)]
pub enum TimeUnit {
    Nanoseconds,
    Microseconds,
    Milliseconds,
    Seconds,
}

/// The unit for a duration of `ns` nanoseconds: the largest one that the
/// duration exceeds.
pub open spec fn unit_for(ns: u128) -> TimeUnit {
    if ns > 1_000_000_000 {
        TimeUnit::Seconds
    } else if ns > 1_000_000 {
        TimeUnit::Milliseconds
    } else if ns > 1_000 {
        TimeUnit::Microseconds
    } else {
        TimeUnit::Nanoseconds
    }
}

/// How many nanoseconds a unit holds.
pub open spec fn nanos_in(unit: TimeUnit) -> u128 {
    match unit {
        TimeUnit::Nanoseconds => 1,
        TimeUnit::Microseconds => 1_000,
        TimeUnit::Milliseconds => 1_000_000,
        TimeUnit::Seconds => 1_000_000_000,
    }
}

/// The unit in which a duration of `ns` nanoseconds is reported.
pub fn time_unit(ns: u128) -> (unit: TimeUnit)
    ensures
        unit == unit_for(ns),
{
    if ns > 1_000_000_000 {
        TimeUnit::Seconds
    } else if ns > 1_000_000 {
        TimeUnit::Milliseconds
    } else if ns > 1_000 {
        TimeUnit::Microseconds
    } else {
        TimeUnit::Nanoseconds
    }
}

/// How many nanoseconds `unit` holds.
pub fn unit_nanos(unit: TimeUnit) -> (ns: u128)
    ensures
        ns == nanos_in(unit),
{
    match unit {
        TimeUnit::Nanoseconds => 1,
        TimeUnit::Microseconds => 1_000,
        TimeUnit::Milliseconds => 1_000_000,
        TimeUnit::Seconds => 1_000_000_000,
    }
}

} // verus!
