//! The pricing engine: registration cost from name length and duration.

use vstd::prelude::*;

verus! {

/// Shortest name accepted at registration, in bytes of logical content.
pub const MIN_LEN: usize = 4;

/// Shortest lease a registration may buy, in milliseconds.
pub const MIN_DURATION: u128 = 700_000_000;

/// Longest lease a registration may buy, in milliseconds.
pub const MAX_DURATION: u128 = 20_000_000_000;

/// Price per millisecond and per byte of headroom under the 32-byte cap.
pub const PRICE_BASE: u128 = 10;

/// `duration * (32 - len) * PRICE_BASE`: shorter names cost proportionally
/// more per unit time.
pub open spec fn spec_cost(len: int, duration: int) -> int {
    duration * (32 - len) * (PRICE_BASE as int)
}

/// Within the bounds enforced at registration, the cost fits in a `u128`.
pub proof fn lemma_cost_fits(len: int, duration: int)
    requires
        0 <= len <= 32,
        0 <= duration <= MAX_DURATION,
    ensures
        0 <= spec_cost(len, duration) <= u128::MAX,
        duration * (32 - len) <= u128::MAX,
{
    assert(0 <= duration * (32 - len) * (PRICE_BASE as int) <= MAX_DURATION * 32 * (
    PRICE_BASE as int)) by (nonlinear_arith)
        requires
            0 <= len <= 32,
            0 <= duration <= MAX_DURATION,
    ;
    assert(0 <= duration * (32 - len) <= MAX_DURATION * 32) by (nonlinear_arith)
        requires
            0 <= len <= 32,
            0 <= duration <= MAX_DURATION,
    ;
}

/// Computes the registration cost.
pub fn cost(domain_len: usize, duration: u128) -> (c: u128)
    requires
        domain_len <= 32,
        duration <= MAX_DURATION,
    ensures
        c == spec_cost(domain_len as int, duration as int),
{
    proof {
        lemma_cost_fits(domain_len as int, duration as int);
    }
    let width: u128 = (32 - domain_len) as u128;
    duration * width * PRICE_BASE
}

} // verus!
