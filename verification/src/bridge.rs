//! The cookie bridge and the request-level gate.
//!
//! Ahead of the auth gate, a token-bearing session cookie is rewritten
//! into the standard bearer-credential header form.  A cookie value
//! holding a byte illegal in a header value is rejected outright as a
//! malformed request, before any cryptographic work.

use vstd::prelude::*;
use crate::claims::{Claims, ClaimsSpec, copy_range, payload_of};
use crate::hexcodec::{hex_of, is_hex_byte, lemma_hex_of_all_hex};
use crate::sign::hmac_sha512_of;
use crate::token::{
    GateError, authorize_spec, authorize_at, header_part, signing_input_of, token_of,
};

verus! {

/// How the request-level gate rejects a request.
#[derive(Clone, Copy, PartialEq, Eq, Structural, Debug)]
pub enum RequestError {
    /// The token cookie cannot be encoded as a header value.
    MalformedCookie,
    /// The auth gate rejected the presented credential.
    Gate(GateError),
}

/// The byte may appear in an HTTP header value: horizontal tab or
/// visible ASCII.
pub open spec fn is_valid_header_byte(b: u8) -> bool {
    b == 0x09 || (0x20 <= b && b < 0x7f)
}

/// Every byte of the sequence may appear in a header value.
pub open spec fn valid_header_bytes(s: Seq<u8>) -> bool {
    forall|i: int| 0 <= i < s.len() ==> is_valid_header_byte(#[trigger] s[i])
}

/// The bearer scheme prefix of an authorization header: `Bearer `.
pub open spec fn bearer_prefix() -> Seq<u8> {
    seq![0x42u8, 0x65u8, 0x61u8, 0x72u8, 0x65u8, 0x72u8, 0x20u8]
}

/// Bytes of an `Option<Vec<u8>>`.
pub open spec fn opt_bytes(o: Option<Vec<u8>>) -> Option<Seq<u8>> {
    match o {
        Some(v) => Some(v@),
        None => None,
    }
}

/// The effective authorization header after the bridge ran: `Err` is a
/// malformed request.  A cookie that cannot be a header value is
/// rejected whether or not a header was sent; a header already present
/// passes through unchanged; without either, no credential results.
pub open spec fn bridge_spec(cookie: Option<Seq<u8>>, header: Option<Seq<u8>>) -> Result<
    Option<Seq<u8>>,
    (),
> {
    match cookie {
        Some(c) => if !valid_header_bytes(c) {
            Err(())
        } else if header is None {
            Ok(Some(bearer_prefix() + c))
        } else {
            Ok(header)
        },
        None => Ok(header),
    }
}

/// The token carried by a bearer authorization header, if it is one.
pub open spec fn parse_bearer_spec(h: Seq<u8>) -> Option<Seq<u8>> {
    if h.len() >= 7 && h.take(7) == bearer_prefix() {
        Some(h.skip(7))
    } else {
        None
    }
}

/// What the request-level gate decides: bridge the cookie, read the
/// bearer credential, and run the auth gate.  A missing or non-bearer
/// credential counts as an invalid token.
pub open spec fn gate_request_spec(
    key: Seq<u8>,
    cookie: Option<Seq<u8>>,
    header: Option<Seq<u8>>,
    now: u64,
) -> Result<ClaimsSpec, RequestError> {
    match bridge_spec(cookie, header) {
        Err(_) => Err(RequestError::MalformedCookie),
        Ok(h) => match h {
            None => Err(RequestError::Gate(GateError::InvalidJwt)),
            Some(hv) => match parse_bearer_spec(hv) {
                None => Err(RequestError::Gate(GateError::InvalidJwt)),
                Some(tok) => match authorize_spec(key, tok, now) {
                    Ok(c) => Ok(c),
                    Err(e) => Err(RequestError::Gate(e)),
                },
            },
        },
    }
}

/// Whether every byte of the value may appear in a header value.
pub fn valid_header_value(v: &Vec<u8>) -> (r: bool)
    ensures
        r == valid_header_bytes(v@),
{
    let n = v.len();
    for i in 0..n
        invariant
            n == v@.len(),
            forall|k: int| 0 <= k < i ==> is_valid_header_byte(#[trigger] v@[k]),
    {
        let b = v[i];
        if !(b == 0x09 || (0x20 <= b && b < 0x7f)) {
            return false;
        }
    }
    true
}

/// Copy of a byte vector.
pub fn copy_bytes(v: &Vec<u8>) -> (r: Vec<u8>)
    ensures
        r@ == v@,
{
    let r = copy_range(v, 0, v.len());
    proof {
        assert(v@.subrange(0, v@.len() as int) =~= v@);
    }
    r
}

/// Bridge a session cookie into the bearer-credential header form.
///
/// `Err` is the malformed-request rejection: it depends on the cookie
/// bytes alone and is produced before any token is even looked at.
pub fn bridge_cookie(cookie: &Option<Vec<u8>>, header: &Option<Vec<u8>>) -> (r: Result<
    Option<Vec<u8>>,
    RequestError,
>)
    ensures
        match r {
            Ok(h) => bridge_spec(opt_bytes(*cookie), opt_bytes(*header)) == Ok::<
                Option<Seq<u8>>,
                (),
            >(opt_bytes(h)),
            Err(e) => e == RequestError::MalformedCookie && bridge_spec(
                opt_bytes(*cookie),
                opt_bytes(*header),
            ) == Err::<Option<Seq<u8>>, ()>(()),
        },
{
    match cookie {
        Some(c) => {
            if !valid_header_value(c) {
                Err(RequestError::MalformedCookie)
            } else {
                match header {
                    None => {
                        let mut h: Vec<u8> = Vec::new();
                        h.push(0x42);
                        h.push(0x65);
                        h.push(0x61);
                        h.push(0x72);
                        h.push(0x65);
                        h.push(0x72);
                        h.push(0x20);
                        proof {
                            assert(h@ =~= bearer_prefix());
                        }
                        crate::claims::extend_bytes(&mut h, c);
                        Ok(Some(h))
                    },
                    Some(hv) => Ok(Some(copy_bytes(hv))),
                }
            }
        },
        None => match header {
            None => Ok(None),
            Some(hv) => Ok(Some(copy_bytes(hv))),
        },
    }
}

/// Read the token out of a bearer authorization header.
pub fn parse_bearer(h: &Vec<u8>) -> (r: Option<Vec<u8>>)
    ensures
        match r {
            Some(t) => parse_bearer_spec(h@) == Some(t@),
            None => parse_bearer_spec(h@) is None,
        },
{
    let n = h.len();
    proof {
        let bp = bearer_prefix();
        assert(bp[0] == 0x42 && bp[1] == 0x65 && bp[2] == 0x61 && bp[3] == 0x72 && bp[4] == 0x65
            && bp[5] == 0x72 && bp[6] == 0x20);
        if h@.len() >= 7 {
            assert(forall|i: int| 0 <= i < 7 ==> #[trigger] h@.take(7)[i] == h@[i]);
        }
    }
    if n < 7 {
        return None;
    }
    if !(h[0] == 0x42 && h[1] == 0x65 && h[2] == 0x61 && h[3] == 0x72 && h[4] == 0x65 && h[5]
        == 0x72 && h[6] == 0x20) {
        return None;
    }
    proof {
        assert(h@.take(7) =~= bearer_prefix());
        assert(h@.skip(7) =~= h@.subrange(7, h@.len() as int));
    }
    Some(copy_range(h, 7, n))
}

/// The request-level gate: bridge the cookie, then verify the bearer
/// credential against the key at the given time.
pub fn gate_request(
    key: &Vec<u8>,
    cookie: &Option<Vec<u8>>,
    header: &Option<Vec<u8>>,
    now: u64,
) -> (r: Result<Claims, RequestError>)
    ensures
        match r {
            Ok(c) => gate_request_spec(key@, opt_bytes(*cookie), opt_bytes(*header), now) == Ok::<
                ClaimsSpec,
                RequestError,
            >(c@),
            Err(e) => gate_request_spec(key@, opt_bytes(*cookie), opt_bytes(*header), now)
                == Err::<ClaimsSpec, RequestError>(e),
        },
{
    let h = match bridge_cookie(cookie, header) {
        Ok(h) => h,
        Err(e) => {
            return Err(e);
        },
    };
    let hv = match h {
        Some(hv) => hv,
        None => {
            return Err(RequestError::Gate(GateError::InvalidJwt));
        },
    };
    let tok = match parse_bearer(&hv) {
        Some(t) => t,
        None => {
            return Err(RequestError::Gate(GateError::InvalidJwt));
        },
    };
    match authorize_at(key, &tok, now) {
        Ok(c) => Ok(c),
        Err(e) => Err(RequestError::Gate(e)),
    }
}

/// A request presenting only the token cookie is authorized exactly as
/// one presenting the equivalent bearer header for the same token.
pub proof fn lemma_cookie_header_equivalent(key: Seq<u8>, c: Seq<u8>, now: u64)
    requires
        valid_header_bytes(c),
    ensures
        gate_request_spec(key, Some(c), None, now) == gate_request_spec(
            key,
            None,
            Some(bearer_prefix() + c),
            now,
        ),
{
    let h = bearer_prefix() + c;
    assert(h.take(7) =~= bearer_prefix());
    assert(h.skip(7) =~= c);
}

/// Every issued token is made of bytes legal in a header value, so a
/// token handed out as a cookie can always be bridged: the
/// cookie/header equivalence above applies to every minted token.
pub proof fn lemma_issued_token_header_safe(key: Seq<u8>, c: ClaimsSpec)
    ensures
        valid_header_bytes(token_of(key, c)),
{
    let ph = hex_of(payload_of(c));
    let sg = hex_of(hmac_sha512_of(key, signing_input_of(c)));
    let tok = token_of(key, c);
    lemma_hex_of_all_hex(payload_of(c));
    lemma_hex_of_all_hex(hmac_sha512_of(key, signing_input_of(c)));
    assert(tok =~= header_part() + seq![0x2eu8] + ph + seq![0x2eu8] + sg);
    assert forall|i: int| 0 <= i < tok.len() implies is_valid_header_byte(#[trigger] tok[i]) by {
        let hd = header_part();
        if i < 5 {
            assert(tok[i] == hd[i]);
            assert(is_valid_header_byte(hd[0]) && is_valid_header_byte(hd[1])
                && is_valid_header_byte(hd[2]) && is_valid_header_byte(hd[3])
                && is_valid_header_byte(hd[4]));
        } else if i == 5 || i == 6 + ph.len() {
            assert(tok[i] == 0x2e);
        } else if i < 6 + ph.len() {
            assert(tok[i] == ph[i - 6]);
            assert(is_hex_byte(ph[i - 6]));
        } else {
            assert(tok[i] == sg[i - 7 - ph.len()]);
            assert(is_hex_byte(sg[i - 7 - ph.len()]));
        }
    }
}

/// A cookie holding a byte illegal in a header value is rejected as a
/// malformed request, whatever the key, the time, or any header sent
/// along: no verification is even reached.
pub proof fn lemma_malformed_cookie_short_circuit(
    key: Seq<u8>,
    c: Seq<u8>,
    header: Option<Seq<u8>>,
    now: u64,
)
    requires
        !valid_header_bytes(c),
    ensures
        gate_request_spec(key, Some(c), header, now) == Err::<ClaimsSpec, RequestError>(
            RequestError::MalformedCookie,
        ),
{
}

} // verus!
