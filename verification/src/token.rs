//! Token issuance and the auth gate.
//!
//! A token is the three-part signed structure
//! `HS512.<hex payload>.<hex signature>`: a fixed header naming the
//! signing algorithm, the hex-armored claims payload, and the
//! hex-armored HMAC-SHA512 tag over the first two parts.  The auth gate
//! re-derives the tag with the process-wide key and admits a request
//! only if the signature matches, the token has not expired, and the
//! claims carry the required administrative group.

use vstd::prelude::*;
use vstd::string::StrSliceExecFns;
use vstd::utf8::encode_utf8;
use crate::hexcodec::{
    hex_of, unhex, scan_hex, is_hex_byte, hex_encode, hex_decode, lemma_hex_of_all_hex,
    lemma_unhex_hex_of, lemma_scan_hex_exact, lemma_scan_hex_split, lemma_unhex_sound,
};
use crate::claims::{
    Claims, ClaimsSpec, claims_bounded, payload_of, parse_payload, serialize_claims,
    parse_claims_bytes, copy_range, extend_bytes, lemma_parse_payload_round,
    lemma_parse_payload_sound,
};
use crate::sign::{hmac_sha512, hmac_sha512_of};

verus! {

/// How the auth gate rejects a presented credential.
#[derive(Clone, Copy, PartialEq, Eq, Structural, Debug)]
pub enum GateError {
    /// Malformed token, wrong algorithm, or bad signature.
    InvalidJwt,
    /// Valid signature, but the expiry lies in the past.
    ExpiredJwt,
    /// Valid and fresh, but the required group is missing.
    NotInGroup,
}

/// The fixed token header, naming the signing algorithm: `HS512`.
pub open spec fn header_part() -> Seq<u8> {
    seq![0x48u8, 0x53u8, 0x35u8, 0x31u8, 0x32u8]
}

/// The group a caller must hold to reach the protected scope.
pub open spec fn admin_group() -> Seq<u8> {
    encode_utf8("lldap_admin"@)
}

/// The bytes covered by the signature: header and armored payload.
pub open spec fn signing_input_of(c: ClaimsSpec) -> Seq<u8> {
    header_part() + seq![0x2eu8] + hex_of(payload_of(c))
}

/// The signed token for the given claims under the given key.
pub open spec fn token_of(key: Seq<u8>, c: ClaimsSpec) -> Seq<u8> {
    signing_input_of(c) + seq![0x2eu8] + hex_of(
        hmac_sha512_of(key, signing_input_of(c)),
    )
}

/// What the auth gate decides for a presented token at a given time.
///
/// Every structural or signature failure collapses into the one
/// generic `InvalidJwt`, so a caller cannot tell which check failed;
/// expiry and group membership are only examined afterwards and
/// reported distinctly.
pub open spec fn authorize_spec(key: Seq<u8>, tok: Seq<u8>, now: u64) -> Result<
    ClaimsSpec,
    GateError,
> {
    if !(tok.len() >= 6 && tok.take(6) == header_part() + seq![0x2eu8]) {
        Err(GateError::InvalidJwt)
    } else {
        let t = scan_hex(tok.skip(6));
        if !(t.1.len() >= 1 && t.1[0] == 0x2e) {
            Err(GateError::InvalidJwt)
        } else if t.1.skip(1) != hex_of(
            hmac_sha512_of(key, header_part() + seq![0x2eu8] + t.0),
        ) {
            Err(GateError::InvalidJwt)
        } else {
            match unhex(t.0) {
                None => Err(GateError::InvalidJwt),
                Some(pb) => match parse_payload(pb) {
                    None => Err(GateError::InvalidJwt),
                    Some(c) => if c.exp < now {
                        Err(GateError::ExpiredJwt)
                    } else if !c.groups.contains(admin_group()) {
                        Err(GateError::NotInGroup)
                    } else {
                        Ok(c)
                    },
                },
            }
        }
    }
}

/// The required group, as bytes.
pub fn admin_group_bytes() -> (r: Vec<u8>)
    ensures
        r@ == admin_group(),
{
    "lldap_admin".as_bytes_vec()
}

/// Whether two byte vectors hold the same bytes.
pub fn bytes_eq(a: &Vec<u8>, b: &Vec<u8>) -> (r: bool)
    ensures
        r == (a@ == b@),
{
    if a.len() != b.len() {
        return false;
    }
    let n = a.len();
    for i in 0..n
        invariant
            n == a@.len() == b@.len(),
            forall|k: int| 0 <= k < i ==> a@[k] == b@[k],
    {
        if a[i] != b[i] {
            return false;
        }
    }
    proof {
        assert(a@ =~= b@);
    }
    true
}

/// Whether the group list holds the given name.
pub fn contains_group(gs: &Vec<Vec<u8>>, x: &Vec<u8>) -> (r: bool)
    ensures
        r == gs@.map_values(|g: Vec<u8>| g@).contains(x@),
{
    let ghost m = gs@.map_values(|g: Vec<u8>| g@);
    let n = gs.len();
    for i in 0..n
        invariant
            n == gs@.len(),
            m == gs@.map_values(|g: Vec<u8>| g@),
            forall|k: int| 0 <= k < i ==> m[k] != x@,
    {
        if bytes_eq(&gs[i], x) {
            proof {
                assert(m[i as int] == x@);
            }
            return true;
        }
    }
    proof {
        assert(forall|k: int| 0 <= k < m.len() ==> m[k] != x@);
    }
    false
}

/// The signing input for an armored payload: `HS512.<hex payload>`.
fn build_signing_input(ph: &Vec<u8>) -> (si: Vec<u8>)
    ensures
        si@ == header_part() + seq![0x2eu8] + ph@,
{
    let mut si: Vec<u8> = Vec::new();
    si.push(0x48);
    si.push(0x53);
    si.push(0x35);
    si.push(0x31);
    si.push(0x32);
    si.push(0x2e);
    proof {
        assert(si@ =~= header_part() + seq![0x2eu8]);
    }
    extend_bytes(&mut si, ph);
    si
}

/// Issue the signed token for the given claims under the given key.
pub fn issue_token(key: &Vec<u8>, claims: &Claims) -> (tok: Vec<u8>)
    ensures
        tok@ == token_of(key@, claims@),
{
    let payload = serialize_claims(claims);
    let ph = hex_encode(&payload);
    let mut tok = build_signing_input(&ph);
    let ghost si = tok@;
    let tag = hmac_sha512(key, &tok);
    let sighex = hex_encode(&tag);
    tok.push(0x2e);
    extend_bytes(&mut tok, &sighex);
    proof {
        assert(tok@ =~= si + seq![0x2eu8] + hex_of(hmac_sha512_of(key@, si)));
    }
    tok
}

/// First position at or after `i` that does not hold a hex digit.
fn scan_hex_end(bs: &Vec<u8>, i: usize) -> (j: usize)
    requires
        i <= bs@.len(),
    ensures
        i <= j <= bs@.len(),
        scan_hex(bs@.skip(i as int)) == (
            bs@.subrange(i as int, j as int),
            bs@.skip(j as int),
        ),
    decreases bs@.len() - i,
{
    let n = bs.len();
    let mut j = i;
    while j < n && ((0x30 <= bs[j] && bs[j] <= 0x39) || (0x61 <= bs[j] && bs[j] <= 0x66))
        invariant
            i <= j <= n,
            n == bs@.len(),
            forall|k: int| i <= k < j ==> is_hex_byte(#[trigger] bs@[k]),
        decreases n - j,
    {
        j = j + 1;
    }
    proof {
        let a = bs@.subrange(i as int, j as int);
        assert(forall|k: int| 0 <= k < a.len() ==> a[k] == bs@[i + k]);
        assert(bs@.skip(i as int) =~= a + bs@.skip(j as int));
        lemma_scan_hex_exact(a, bs@.skip(j as int));
    }
    j
}

/// The auth gate: verify the token against the key at the given time.
///
/// First failure wins: signature before expiry before group, and every
/// structural or cryptographic failure is the generic `InvalidJwt`.
#[verifier::loop_isolation(false)]
pub fn authorize_at(key: &Vec<u8>, token: &Vec<u8>, now: u64) -> (r: Result<Claims, GateError>)
    ensures
        match r {
            Ok(c) => authorize_spec(key@, token@, now) == Ok::<ClaimsSpec, GateError>(c@),
            Err(e) => authorize_spec(key@, token@, now) == Err::<ClaimsSpec, GateError>(e),
        },
{
    let n = token.len();
    proof {
        let hd = header_part() + seq![0x2eu8];
        assert(hd.len() == 6);
        assert(hd[0] == 0x48 && hd[1] == 0x53 && hd[2] == 0x35 && hd[3] == 0x31 && hd[4] == 0x32
            && hd[5] == 0x2e);
        if token@.len() >= 6 {
            assert(forall|i: int| 0 <= i < 6 ==> #[trigger] token@.take(6)[i] == token@[i]);
        }
    }
    if n < 6 {
        return Err(GateError::InvalidJwt);
    }
    if !(token[0] == 0x48 && token[1] == 0x53 && token[2] == 0x35 && token[3] == 0x31
        && token[4] == 0x32 && token[5] == 0x2e) {
        return Err(GateError::InvalidJwt);
    }
    proof {
        assert(token@.take(6) =~= header_part() + seq![0x2eu8]);
    }
    let j = scan_hex_end(token, 6);
    if j == n || token[j] != 0x2e {
        proof {
            if j < n {
                assert(token@.skip(j as int)[0] == token@[j as int]);
            }
        }
        return Err(GateError::InvalidJwt);
    }
    proof {
        assert(token@.skip(j as int)[0] == token@[j as int]);
        assert(token@.skip(j as int).skip(1) =~= token@.skip(j as int + 1));
        assert(token@.skip(j as int + 1) =~= token@.subrange(j as int + 1, n as int));
    }
    let ph = copy_range(token, 6, j);
    let si = build_signing_input(&ph);
    let tag = hmac_sha512(key, &si);
    let sighex = hex_encode(&tag);
    let found = copy_range(token, j + 1, n);
    if !bytes_eq(&found, &sighex) {
        return Err(GateError::InvalidJwt);
    }
    let pb = match hex_decode(&ph) {
        Some(v) => v,
        None => {
            return Err(GateError::InvalidJwt);
        },
    };
    let c = match parse_claims_bytes(&pb) {
        Some(c) => c,
        None => {
            return Err(GateError::InvalidJwt);
        },
    };
    if c.exp < now {
        return Err(GateError::ExpiredJwt);
    }
    let admin = admin_group_bytes();
    if !contains_group(&c.groups, &admin) {
        return Err(GateError::NotInGroup);
    }
    Ok(c)
}

/// Issuing a token and verifying it at once recovers the very claims
/// that were signed: identity and group set come back unchanged.
pub proof fn lemma_round_trip(key: Seq<u8>, c: ClaimsSpec, now: u64)
    requires
        claims_bounded(c),
        now <= c.exp,
        c.groups.contains(admin_group()),
    ensures
        authorize_spec(key, token_of(key, c), now) == Ok::<ClaimsSpec, GateError>(c),
{
    lemma_accepts_signature(key, c);
    lemma_parse_payload_round(c);
}

/// Common structural part: on a token built by `token_of`, the auth gate
/// finds the armored payload and a matching signature.
proof fn lemma_accepts_signature(key: Seq<u8>, c: ClaimsSpec)
    ensures
        token_of(key, c).len() >= 6,
        token_of(key, c).take(6) == header_part() + seq![0x2eu8],
        scan_hex(token_of(key, c).skip(6)) == (
            hex_of(payload_of(c)),
            seq![0x2eu8] + hex_of(hmac_sha512_of(key, signing_input_of(c))),
        ),
        (seq![0x2eu8] + hex_of(hmac_sha512_of(key, signing_input_of(c)))).skip(1) == hex_of(
            hmac_sha512_of(key, signing_input_of(c)),
        ),
        unhex(hex_of(payload_of(c))) == Some(payload_of(c)),
{
    let ph = hex_of(payload_of(c));
    let sg = hex_of(hmac_sha512_of(key, signing_input_of(c)));
    let tok = token_of(key, c);
    lemma_hex_of_all_hex(payload_of(c));
    lemma_hex_of_all_hex(hmac_sha512_of(key, signing_input_of(c)));
    assert(tok.take(6) =~= header_part() + seq![0x2eu8]);
    assert(tok.skip(6) =~= ph + (seq![0x2eu8] + sg));
    assert(!is_hex_byte(0x2e));
    lemma_scan_hex_exact(ph, seq![0x2eu8] + sg);
    assert((seq![0x2eu8] + sg).skip(1) =~= sg);
    lemma_unhex_hex_of(payload_of(c));
}

/// A token whose expiry lies in the past is rejected as expired even
/// though its signature is valid: the expiry gate dominates.
pub proof fn lemma_expiry_dominates(key: Seq<u8>, c: ClaimsSpec, now: u64)
    requires
        claims_bounded(c),
        c.exp < now,
    ensures
        authorize_spec(key, token_of(key, c), now) == Err::<ClaimsSpec, GateError>(
            GateError::ExpiredJwt,
        ),
{
    lemma_accepts_signature(key, c);
    lemma_parse_payload_round(c);
}

/// A valid, fresh token whose group set lacks the required group is
/// rejected with the distinct insufficient-privilege error.
pub proof fn lemma_group_gating(key: Seq<u8>, c: ClaimsSpec, now: u64)
    requires
        claims_bounded(c),
        now <= c.exp,
        !c.groups.contains(admin_group()),
    ensures
        authorize_spec(key, token_of(key, c), now) == Err::<ClaimsSpec, GateError>(
            GateError::NotInGroup,
        ),
{
    lemma_accepts_signature(key, c);
    lemma_parse_payload_round(c);
}

/// The auth gate admits only the issuer's work: any token it accepts
/// is, byte for byte, the token minted for the claims it returns —
/// fresh, properly signed, and carrying the required group.
pub proof fn lemma_authorize_sound(key: Seq<u8>, tok: Seq<u8>, now: u64)
    ensures
        authorize_spec(key, tok, now) matches Ok(c) ==> (tok == token_of(key, c) && now <= c.exp
            && c.groups.contains(admin_group()) && claims_bounded(c)),
{
    if authorize_spec(key, tok, now) is Ok {
        let t = scan_hex(tok.skip(6));
        lemma_scan_hex_split(tok.skip(6));
        lemma_unhex_sound(t.0);
        let pb = unhex(t.0)->Some_0;
        lemma_parse_payload_sound(pb);
        let c = parse_payload(pb)->Some_0;
        assert(t.0 == hex_of(payload_of(c)));
        assert(t.1 =~= seq![0x2eu8] + t.1.skip(1));
        assert(tok =~= tok.take(6) + tok.skip(6));
        assert(tok =~= token_of(key, c));
    }
}

/// Any token that carries the right header and payload but whose
/// signature part differs anywhere from the true tag is rejected with
/// the generic invalid-token error.
pub proof fn lemma_signature_tamper_rejected(key: Seq<u8>, c: ClaimsSpec, now: u64, sig: Seq<u8>)
    requires
        sig != hex_of(hmac_sha512_of(key, signing_input_of(c))),
    ensures
        authorize_spec(key, signing_input_of(c) + seq![0x2eu8] + sig, now) == Err::<
            ClaimsSpec,
            GateError,
        >(GateError::InvalidJwt),
{
    let ph = hex_of(payload_of(c));
    let tok = signing_input_of(c) + seq![0x2eu8] + sig;
    lemma_hex_of_all_hex(payload_of(c));
    assert(tok.take(6) =~= header_part() + seq![0x2eu8]);
    assert(tok.skip(6) =~= ph + (seq![0x2eu8] + sig));
    assert(!is_hex_byte(0x2e));
    lemma_scan_hex_exact(ph, seq![0x2eu8] + sig);
    assert((seq![0x2eu8] + sig).skip(1) =~= sig);
}

} // verus!

