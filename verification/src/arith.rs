//! Saturating `u64` arithmetic, as std's `saturating_*` methods compute it.
use vstd::prelude::*;

verus! {

/// `a + b`, clamped at `u64::MAX`.
pub open spec fn saturating_add_spec(a: u64, b: u64) -> u64 {
    if a + b > u64::MAX {
        u64::MAX
    } else {
        (a + b) as u64
    }
}

/// `a - b`, clamped at 0.
pub open spec fn saturating_sub_spec(a: u64, b: u64) -> u64 {
    if a < b {
        0
    } else {
        (a - b) as u64
    }
}

/// `a * b`, clamped at `u64::MAX`.
pub open spec fn saturating_mul_spec(a: u64, b: u64) -> u64 {
    if a * b > u64::MAX {
        u64::MAX
    } else {
        (a * b) as u64
    }
}

/// `a * b`, clamped at `u64::MAX`.
pub fn saturating_mul(a: u64, b: u64) -> (p: u64)
    ensures
        p == saturating_mul_spec(a, b),
{
    match a.checked_mul(b) {
        Some(p) => p,
        None => u64::MAX,
    }
}

} // verus!
