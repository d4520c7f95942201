//! The clock: the one impure input of authorization.
//!
//! Verification itself is pure computation; only the current time
//! comes from outside.  The auth gate is therefore stated against an
//! explicit timestamp, and this module supplies the convenience entry
//! that reads the clock and authorizes at that instant.

use vstd::prelude::*;
use crate::claims::Claims;
use crate::bridge::{RequestError, gate_request, gate_request_spec, opt_bytes};

verus! {

/// Relies on chrono's `Utc::now`: the current time of the system
/// clock, as seconds since the Unix epoch.  Nothing is assumed of the
/// value; callers state what holds at every time.
#[verifier::external_body]
fn unix_now_seconds() -> (t: i64) {
    chrono::Utc::now().timestamp()
}

/// The current time as an unsigned timestamp; instants before the
/// epoch clamp to zero.
pub fn current_time() -> (t: u64) {
    let s = unix_now_seconds();
    if s < 0 {
        0
    } else {
        s as u64
    }
}

/// The outcome `r` is what the request-level gate decides at time `t`.
pub open spec fn gate_outcome_at(
    key: Seq<u8>,
    cookie: Option<Seq<u8>>,
    header: Option<Seq<u8>>,
    t: u64,
    r: Result<Claims, RequestError>,
) -> bool {
    match r {
        Ok(c) => gate_request_spec(key, cookie, header, t) == Ok::<_, RequestError>(c@),
        Err(e) => gate_request_spec(key, cookie, header, t) == Err::<
            crate::claims::ClaimsSpec,
            _,
        >(e),
    }
}

/// Run the request-level gate at the current time: the outcome is the
/// gate's decision at some instant of the clock.
pub fn gate_request_now(key: &Vec<u8>, cookie: &Option<Vec<u8>>, header: &Option<Vec<u8>>) -> (r:
    Result<Claims, RequestError>)
    ensures
        exists|t: u64| gate_outcome_at(key@, opt_bytes(*cookie), opt_bytes(*header), t, r),
{
    let t = current_time();
    let r = gate_request(key, cookie, header, t);
    proof {
        assert(gate_outcome_at(key@, opt_bytes(*cookie), opt_bytes(*header), t, r));
    }
    r
}

} // verus!
