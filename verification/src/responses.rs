//! The error mapper: domain failures to transport-level responses.
//!
//! Authentication failures map to 401 with the failure's message as
//! body; backend storage faults map to 500, never silently downgraded
//! to 401; a malformed request maps to 400.  No handler formats error
//! responses itself: everything goes through this one conversion.

use vstd::prelude::*;
use vstd::string::StrSliceExecFns;
use vstd::utf8::encode_utf8;
use crate::token::GateError;
use crate::bridge::RequestError;
use crate::claims::extend_bytes;

verus! {

/// A failure reported by the authentication backend collaborator.
pub enum ServiceError {
    /// The credentials were rejected: the bind itself failed.
    Authentication(Vec<u8>),
    /// A storage fault unrelated to credential correctness.
    Database(Vec<u8>),
}

/// A cookie set on a response.
pub struct SetCookie {
    pub name: Vec<u8>,
    pub value: Vec<u8>,
    pub path: Option<Vec<u8>>,
    pub http_only: bool,
    pub max_age_seconds: u64,
}

/// A transport-level response: status code, body, cookies to set.
pub struct HttpOut {
    pub status: u16,
    pub body: Vec<u8>,
    pub cookies: Vec<SetCookie>,
}

/// The response the mapper owes for a backend failure: 401 with the
/// message for an authentication failure, 500 with the message for a
/// storage fault, no cookies either way.
pub open spec fn service_error_response(e: ServiceError, r: HttpOut) -> bool {
    &&& r.cookies@.len() == 0
    &&& match e {
        ServiceError::Authentication(m) => r.status == 401 && r.body@ == m@,
        ServiceError::Database(m) => r.status == 500 && r.body@ == m@,
    }
}

/// The body owed for each gate rejection.
pub open spec fn gate_error_message(e: GateError) -> Seq<u8> {
    match e {
        GateError::InvalidJwt => encode_utf8("Invalid JWT"@),
        GateError::ExpiredJwt => encode_utf8("Expired JWT"@),
        GateError::NotInGroup => encode_utf8("JWT error: User is not in group lldap_admin"@),
    }
}

/// The body owed for a malformed token cookie.
pub open spec fn malformed_cookie_message() -> Seq<u8> {
    encode_utf8("Invalid token cookie"@)
}

/// Map a backend failure to its transport response.
pub fn error_to_http_response(e: &ServiceError) -> (r: HttpOut)
    ensures
        service_error_response(*e, r),
{
    match e {
        ServiceError::Authentication(m) => {
            let mut body: Vec<u8> = Vec::new();
            extend_bytes(&mut body, m);
            proof {
                assert(body@ =~= m@);
            }
            HttpOut { status: 401, body, cookies: Vec::new() }
        },
        ServiceError::Database(m) => {
            let mut body: Vec<u8> = Vec::new();
            extend_bytes(&mut body, m);
            proof {
                assert(body@ =~= m@);
            }
            HttpOut { status: 500, body, cookies: Vec::new() }
        },
    }
}

/// Map a request-level gate rejection to its transport response: 400
/// for a malformed cookie, 401 with the distinct reason otherwise.
pub fn request_error_response(e: &RequestError) -> (r: HttpOut)
    ensures
        r.cookies@.len() == 0,
        match e {
            RequestError::MalformedCookie => r.status == 400 && r.body@
                == malformed_cookie_message(),
            RequestError::Gate(g) => r.status == 401 && r.body@ == gate_error_message(*g),
        },
{
    match e {
        RequestError::MalformedCookie => HttpOut {
            status: 400,
            body: "Invalid token cookie".as_bytes_vec(),
            cookies: Vec::new(),
        },
        RequestError::Gate(g) => {
            let body = match g {
                GateError::InvalidJwt => "Invalid JWT".as_bytes_vec(),
                GateError::ExpiredJwt => "Expired JWT".as_bytes_vec(),
                GateError::NotInGroup => "JWT error: User is not in group lldap_admin"
                    .as_bytes_vec(),
            };
            HttpOut { status: 401, body, cookies: Vec::new() }
        },
    }
}

} // verus!
