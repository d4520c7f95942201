use lldap_auth::bridge::{gate_request, RequestError};
use lldap_auth::claims::Claims;
use lldap_auth::hexcodec::hex_encode;
use lldap_auth::issuer::{after_bind, finish_authorize, BindStep, TOKEN_LIFETIME_SECONDS};
use lldap_auth::responses::{error_to_http_response, request_error_response, ServiceError};
use lldap_auth::token::{authorize_at, issue_token, GateError};
use hmac::{Hmac, KeyInit, Mac};
use sha2::Sha512;

fn key() -> Vec<u8> {
    b"secretsecretsecret".to_vec()
}

fn admin_claims(exp: u64) -> Claims {
    Claims {
        exp,
        user: b"alice".to_vec(),
        groups: vec![b"lldap_admin".to_vec(), b"readers".to_vec()],
    }
}

#[test]
fn round_trip_recovers_identity_and_groups() {
    let tok = issue_token(&key(), &admin_claims(2000));
    let c = authorize_at(&key(), &tok, 1500).expect("fresh valid token must be admitted");
    assert_eq!(c.exp, 2000);
    assert_eq!(c.user, b"alice".to_vec());
    assert_eq!(c.groups, vec![b"lldap_admin".to_vec(), b"readers".to_vec()]);
}

#[test]
fn token_has_three_part_shape() {
    let tok = issue_token(&key(), &admin_claims(2000));
    assert!(tok.starts_with(b"HS512."));
    // The signature is the 512-bit tag in hex: 128 digits after a dot.
    assert_eq!(tok[tok.len() - 129], b'.');
    assert!(tok[tok.len() - 128..]
        .iter()
        .all(|b| (b'0'..=b'9').contains(b) || (b'a'..=b'f').contains(b)));
}

#[test]
fn signature_is_real_hmac_sha512() {
    let tok = issue_token(&key(), &admin_claims(2000));
    let dot = tok.len() - 129;
    let signing_input = &tok[..dot];
    let mut mac = <Hmac<Sha512> as KeyInit>::new_from_slice(&key()).unwrap();
    mac.update(signing_input);
    let tag = mac.finalize().into_bytes().to_vec();
    let expected = hex_encode(&tag);
    assert_eq!(&tok[dot + 1..], &expected[..]);
}

#[test]
fn flipping_any_single_bit_yields_generic_invalid() {
    let k = key();
    let tok = issue_token(&k, &admin_claims(2000));
    for i in 0..tok.len() {
        for bit in 0..8 {
            let mut t = tok.clone();
            t[i] ^= 1 << bit;
            match authorize_at(&k, &t, 1500) {
                Err(GateError::InvalidJwt) => {}
                other => panic!("byte {} bit {}: expected InvalidJwt, got {:?}", i, bit, other),
            }
        }
    }
}

#[test]
fn wrong_algorithm_header_is_generic_invalid() {
    let k = key();
    let tok = issue_token(&k, &admin_claims(2000));
    let mut t = tok.clone();
    // Claim a different algorithm: HS512 -> HS256.
    t[2] = b'2';
    t[3] = b'5';
    t[4] = b'6';
    assert_eq!(authorize_at(&k, &t, 1500).unwrap_err(), GateError::InvalidJwt);
    assert_eq!(authorize_at(&k, &b"".to_vec(), 1500).unwrap_err(), GateError::InvalidJwt);
    assert_eq!(authorize_at(&k, &b"HS512".to_vec(), 1500).unwrap_err(), GateError::InvalidJwt);
}

#[test]
fn non_ascii_identity_round_trips() {
    // A UTF-8 identity beyond ASCII survives issuance and verification.
    let user: Vec<u8> = vec![0xc5, 0xbe, b'o', b'f', b'i', b'a'];
    let c = Claims {
        exp: 2000,
        user: user.clone(),
        groups: vec![b"lldap_admin".to_vec(), b"dot.ted".to_vec()],
    };
    let tok = issue_token(&key(), &c);
    let back = authorize_at(&key(), &tok, 1500).expect("valid token must be admitted");
    assert_eq!(back.user, user);
    assert_eq!(back.groups, c.groups);
}

#[test]
fn wrong_key_is_generic_invalid() {
    let tok = issue_token(&key(), &admin_claims(2000));
    let r = authorize_at(&b"otherkey".to_vec(), &tok, 1500);
    assert_eq!(r.unwrap_err(), GateError::InvalidJwt);
}

#[test]
fn expiry_dominates_a_valid_signature() {
    let tok = issue_token(&key(), &admin_claims(2000));
    assert_eq!(authorize_at(&key(), &tok, 2001).unwrap_err(), GateError::ExpiredJwt);
    // The boundary instant is still accepted.
    assert!(authorize_at(&key(), &tok, 2000).is_ok());
}

#[test]
fn missing_group_is_rejected_distinctly() {
    let c = Claims { exp: 2000, user: b"alice".to_vec(), groups: vec![b"readers".to_vec()] };
    let tok = issue_token(&key(), &c);
    assert_eq!(authorize_at(&key(), &tok, 1500).unwrap_err(), GateError::NotInGroup);
}

#[test]
fn gate_error_messages_are_distinct_and_exact() {
    let invalid = request_error_response(&RequestError::Gate(GateError::InvalidJwt));
    assert_eq!(invalid.status, 401);
    assert_eq!(invalid.body, b"Invalid JWT".to_vec());
    let expired = request_error_response(&RequestError::Gate(GateError::ExpiredJwt));
    assert_eq!(expired.status, 401);
    assert_eq!(expired.body, b"Expired JWT".to_vec());
    let group = request_error_response(&RequestError::Gate(GateError::NotInGroup));
    assert_eq!(group.status, 401);
    assert_eq!(group.body, b"JWT error: User is not in group lldap_admin".to_vec());
    let malformed = request_error_response(&RequestError::MalformedCookie);
    assert_eq!(malformed.status, 400);
    assert_eq!(malformed.body, b"Invalid token cookie".to_vec());
}

#[test]
fn backend_failures_map_to_401_and_500() {
    let auth = error_to_http_response(&ServiceError::Authentication(b"Bad credentials".to_vec()));
    assert_eq!(auth.status, 401);
    assert_eq!(auth.body, b"Bad credentials".to_vec());
    assert!(auth.cookies.is_empty());
    let db = error_to_http_response(&ServiceError::Database(b"connection lost".to_vec()));
    assert_eq!(db.status, 500);
    assert_eq!(db.body, b"connection lost".to_vec());
}

#[test]
fn cookie_and_header_admit_identically() {
    let k = key();
    let tok = issue_token(&k, &admin_claims(2000));
    let by_cookie = gate_request(&k, &Some(tok.clone()), &None, 1500);
    let mut header = b"Bearer ".to_vec();
    header.extend_from_slice(&tok);
    let by_header = gate_request(&k, &None, &Some(header), 1500);
    let c1 = by_cookie.expect("cookie path must admit");
    let c2 = by_header.expect("header path must admit");
    assert_eq!(c1.user, c2.user);
    assert_eq!(c1.groups, c2.groups);
    assert_eq!(c1.exp, c2.exp);
}

#[test]
fn malformed_cookie_is_400_before_any_verification() {
    // An illegal header byte in the cookie rejects the request even
    // with a key that never signed anything and with a header present.
    let cookie = b"tok\nen".to_vec();
    let r = gate_request(&b"unused".to_vec(), &Some(cookie.clone()), &None, 0);
    assert_eq!(r.unwrap_err(), RequestError::MalformedCookie);
    let r = gate_request(
        &b"unused".to_vec(),
        &Some(cookie),
        &Some(b"Bearer whatever".to_vec()),
        0,
    );
    assert_eq!(r.unwrap_err(), RequestError::MalformedCookie);
}

#[test]
fn header_passes_through_when_cookie_absent() {
    let k = key();
    let tok = issue_token(&k, &admin_claims(2000));
    let mut header = b"Bearer ".to_vec();
    header.extend_from_slice(&tok);
    assert!(gate_request(&k, &None, &Some(header), 1500).is_ok());
    // No credential at all is a generic invalid-token rejection.
    assert_eq!(
        gate_request(&k, &None, &None, 1500).unwrap_err(),
        RequestError::Gate(GateError::InvalidJwt)
    );
}

#[test]
fn end_to_end_bind_issue_and_gate() {
    let k = key();
    let issued_at: u64 = 1_700_000_000;

    // bind("alice", "hunter2") succeeded; the backend reports the
    // admin group: the issuer must proceed to the group lookup.
    match after_bind(Ok(())) {
        BindStep::FetchGroups => {}
        BindStep::Respond(_) => panic!("successful bind must proceed to the group lookup"),
    }
    let resp = finish_authorize(
        &k,
        &b"alice".to_vec(),
        Ok(vec![b"lldap_admin".to_vec()]),
        issued_at,
    );
    assert_eq!(resp.status, 200);
    assert_eq!(resp.cookies.len(), 2);
    assert_eq!(resp.cookies[0].name, b"token".to_vec());
    assert_eq!(resp.cookies[0].value, resp.body);
    assert_eq!(resp.cookies[0].path, Some(b"/api".to_vec()));
    assert!(resp.cookies[0].http_only);
    assert_eq!(resp.cookies[0].max_age_seconds, TOKEN_LIFETIME_SECONDS);
    assert_eq!(resp.cookies[1].name, b"user_id".to_vec());
    assert_eq!(resp.cookies[1].value, b"alice".to_vec());
    assert_eq!(resp.cookies[1].path, None);
    assert!(!resp.cookies[1].http_only);

    // A later request carrying the token cookie is admitted.
    let later = issued_at + 3600;
    let c = gate_request(&k, &Some(resp.body.clone()), &None, later)
        .expect("fresh cookie-borne token must be admitted");
    assert_eq!(c.user, b"alice".to_vec());

    // The same token, seen once its 24-hour life has passed, is expired.
    let past_expiry = issued_at + TOKEN_LIFETIME_SECONDS + 1;
    let r = gate_request(&k, &Some(resp.body.clone()), &None, past_expiry);
    assert_eq!(r.unwrap_err(), RequestError::Gate(GateError::ExpiredJwt));
    let out = request_error_response(&RequestError::Gate(GateError::ExpiredJwt));
    assert_eq!(out.status, 401);
    assert_eq!(out.body, b"Expired JWT".to_vec());

    // A token issued for a user with no groups is rejected distinctly.
    let resp2 = finish_authorize(&k, &b"bob".to_vec(), Ok(Vec::new()), issued_at);
    let r = gate_request(&k, &Some(resp2.body.clone()), &None, later);
    assert_eq!(r.unwrap_err(), RequestError::Gate(GateError::NotInGroup));

    // A failed bind surfaces as an authentication error; no token.
    match after_bind(Err(ServiceError::Authentication(b"Bad user or password".to_vec()))) {
        BindStep::FetchGroups => panic!("failed bind must not reach the group lookup"),
        BindStep::Respond(out) => {
            assert_eq!(out.status, 401);
            assert_eq!(out.body, b"Bad user or password".to_vec());
        }
    }

    // A storage fault during the group lookup is a 500, not a 401.
    let resp3 = finish_authorize(
        &k,
        &b"alice".to_vec(),
        Err(ServiceError::Database(b"db down".to_vec())),
        issued_at,
    );
    assert_eq!(resp3.status, 500);
    assert_eq!(resp3.body, b"db down".to_vec());
}
