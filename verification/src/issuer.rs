//! The token issuer: a successful bind becomes a signed token and two
//! cookies.
//!
//! The issuer's two backend calls are sequential and short-circuit:
//! the group lookup is owed only after a successful bind.  That
//! decision sequence lives here as plain step functions over the two
//! call outcomes; performing the calls themselves is the caller's
//! transport concern.

use vstd::prelude::*;
use vstd::string::StrSliceExecFns;
use vstd::utf8::encode_utf8;
use crate::claims::{Claims, ClaimsSpec};
use crate::token::{token_of, issue_token};
use crate::bridge::copy_bytes;
use crate::responses::{
    HttpOut, SetCookie, ServiceError, service_error_response, error_to_http_response,
};

verus! {

/// Lifetime of an issued credential: 24 hours, in seconds.
pub const TOKEN_LIFETIME_SECONDS: u64 = 86400;

/// The claims the issuer signs: expiry 24 hours past issuance, and the
/// identity and group snapshot the backend reported.
pub open spec fn issued_claims(user: Seq<u8>, groups: Seq<Seq<u8>>, now: u64) -> ClaimsSpec {
    ClaimsSpec { exp: (now + TOKEN_LIFETIME_SECONDS) as u64, user, groups }
}

/// The response owed for a successful bind: the signed token as body,
/// the path-scoped script-proof token cookie, and the informational
/// identity cookie.
pub open spec fn authorize_success_response(
    key: Seq<u8>,
    user: Seq<u8>,
    groups: Seq<Seq<u8>>,
    now: u64,
    r: HttpOut,
) -> bool {
    let tok = token_of(key, issued_claims(user, groups, now));
    &&& r.status == 200
    &&& r.body@ == tok
    &&& r.cookies@.len() == 2
    &&& r.cookies@[0].name@ == encode_utf8("token"@)
    &&& r.cookies@[0].value@ == tok
    &&& (r.cookies@[0].path matches Some(p) && p@ == encode_utf8("/api"@))
    &&& r.cookies@[0].http_only
    &&& r.cookies@[0].max_age_seconds == TOKEN_LIFETIME_SECONDS
    &&& r.cookies@[1].name@ == encode_utf8("user_id"@)
    &&& r.cookies@[1].value@ == user
    &&& r.cookies@[1].path is None
    &&& !r.cookies@[1].http_only
    &&& r.cookies@[1].max_age_seconds == TOKEN_LIFETIME_SECONDS
}

/// What to do once the bind call came back.
pub enum BindStep {
    /// The bind succeeded: the group lookup is owed next.
    FetchGroups,
    /// The bind failed: respond at once, no group lookup.
    Respond(HttpOut),
}

/// Decide after the bind call: proceed to the group lookup only on
/// success; surface any failure through the error mapper unchanged.
pub fn after_bind(r: Result<(), ServiceError>) -> (s: BindStep)
    ensures
        match r {
            Ok(_) => s is FetchGroups,
            Err(e) => s matches BindStep::Respond(out) && service_error_response(e, out),
        },
{
    match r {
        Ok(_) => BindStep::FetchGroups,
        Err(e) => BindStep::Respond(error_to_http_response(&e)),
    }
}

/// Finish issuance once the group lookup came back: mint and sign the
/// token and set both cookies, or surface the failure unchanged.
pub fn finish_authorize(
    key: &Vec<u8>,
    user: &Vec<u8>,
    groups_result: Result<Vec<Vec<u8>>, ServiceError>,
    now: u64,
) -> (r: HttpOut)
    requires
        now + TOKEN_LIFETIME_SECONDS <= u64::MAX,
    ensures
        match groups_result {
            Ok(gs) => authorize_success_response(
                key@,
                user@,
                gs@.map_values(|g: Vec<u8>| g@),
                now,
                r,
            ),
            Err(e) => service_error_response(e, r),
        },
{
    match groups_result {
        Err(e) => error_to_http_response(&e),
        Ok(groups) => {
            let ghost gv = groups@.map_values(|g: Vec<u8>| g@);
            let c = Claims { exp: now + TOKEN_LIFETIME_SECONDS, user: copy_bytes(user), groups };
            proof {
                assert(c@ =~= issued_claims(user@, gv, now));
            }
            let tok = issue_token(key, &c);
            let mut cookies: Vec<SetCookie> = Vec::new();
            cookies.push(
                SetCookie {
                    name: "token".as_bytes_vec(),
                    value: copy_bytes(&tok),
                    path: Some("/api".as_bytes_vec()),
                    http_only: true,
                    max_age_seconds: TOKEN_LIFETIME_SECONDS,
                },
            );
            cookies.push(
                SetCookie {
                    name: "user_id".as_bytes_vec(),
                    value: copy_bytes(user),
                    path: None,
                    http_only: false,
                    max_age_seconds: TOKEN_LIFETIME_SECONDS,
                },
            );
            HttpOut { status: 200, body: tok, cookies }
        },
    }
}

} // verus!
