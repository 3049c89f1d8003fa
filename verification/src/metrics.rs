//! Shared pieces of the per-container metric records.
//!
//! The containers report ratios (load factors, average depths, average
//! levels) as exact rational numbers rather than approximations, and their
//! event counters saturate at the top of `u32` instead of wrapping.

use vstd::prelude::*;

verus! {

/// An exact ratio `num / den`, used for the load-factor and average metrics.
#[derive(Clone, Copy, Debug, PartialEq, Eq, Structural)]
pub struct Ratio {
    pub num: u64,
    pub den: u64,
}

/// Saturating increment of an event counter.
pub open spec fn spec_bump(x: u32) -> u32 {
    if x < 0xffff_ffffu32 {
        (x + 1) as u32
    } else {
        x
    }
}

/// Saturating addition of `n` events to a counter.
pub open spec fn spec_sat_add(x: u32, n: nat) -> u32 {
    if x + n <= 0xffff_ffffu32 {
        (x + n) as u32
    } else {
        0xffff_ffffu32
    }
}

/// The larger of two counter values.
pub open spec fn umax32(a: u32, b: u32) -> u32 {
    if a >= b {
        a
    } else {
        b
    }
}

/// A count clipped to what a `u32` metric can report.
pub open spec fn cap32(n: nat) -> u32 {
    if n >= 0xffff_ffffnat {
        0xffff_ffffu32
    } else {
        n as u32
    }
}

/// Increment an event counter, saturating at the top of `u32`.
pub fn bump(x: u32) -> (r: u32)
    ensures
        r == spec_bump(x),
{
    if x < 0xffff_ffffu32 {
        x + 1
    } else {
        x
    }
}

/// The larger of two counter values, executably.
pub fn umax(a: u32, b: u32) -> (r: u32)
    ensures
        r == umax32(a, b),
{
    if a >= b {
        a
    } else {
        b
    }
}

/// Clip a count to what a `u32` metric can report.
pub fn clip(n: usize) -> (r: u32)
    ensures
        r == cap32(n as nat),
{
    if n >= 0xffff_ffffusize {
        0xffff_ffffu32
    } else {
        n as u32
    }
}

/// Add `n` events to a counter, saturating at the top of `u32`.
pub fn sat_add(x: u32, n: usize) -> (r: u32)
    ensures
        r == spec_sat_add(x, n as nat),
{
    let nn: u32 = if n >= 0xffff_ffffusize {
        0xffff_ffffu32
    } else {
        n as u32
    };
    if x >= 0xffff_ffffu32 - nn {
        0xffff_ffffu32
    } else {
        x + nn
    }
}

} // verus!
