//! Stateless authentication core: signed, time-limited credentials.
//!
//! A successful username/password bind is turned into a compact signed
//! token (`HS512.<hex payload>.<hex signature>`) carrying the identity,
//! an absolute expiry and a snapshot of the user's groups.  Every later
//! request is admitted or rejected purely from that token: signature,
//! expiry and required-group membership are checked locally, with no
//! server-side session state.

pub mod hexcodec;
pub mod numcodec;
pub mod claims;
pub mod sign;
pub mod token;
pub mod bridge;
pub mod responses;
pub mod issuer;
pub mod clock;
