//! The rate-limit acknowledgement.
//!
//! The rate-limit endpoint keeps no window state and enforces nothing: it
//! always approves the request and reports one unit of the limit as spent.
//! Only that fixed policy is computed here; the boundary layer owns the
//! request and response shapes.

use vstd::prelude::*;

verus! {

/// The outcome reported for a rate-limit request.
pub struct RateLimitAck {
    pub success: bool,
    pub limit: u32,
    pub remaining: u32,
}

/// Approves the request unconditionally and reports the given limit with one
/// unit spent; a limit of zero stays at zero rather than wrapping.
pub fn rate_limit_ack(limit: u32) -> (r: RateLimitAck)
    ensures
        r.success,
        r.limit == limit,
        r.remaining == if limit > 0 {
            (limit - 1) as u32
        } else {
            0u32
        },
{
    let remaining = if limit > 0 {
        limit - 1
    } else {
        0
    };
    RateLimitAck { success: true, limit, remaining }
}

} // verus!
