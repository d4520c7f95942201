use lldap_auth::claims::{parse_claims_bytes, serialize_claims, Claims};
use lldap_auth::hexcodec::{hex_decode, hex_encode};
use lldap_auth::numcodec::{parse_dec_range, u64_digits};

#[test]
fn hex_encode_exact() {
    assert_eq!(hex_encode(&vec![0x00, 0xff, 0x10]), b"00ff10".to_vec());
    assert_eq!(hex_encode(&Vec::new()), Vec::<u8>::new());
}

#[test]
fn hex_decode_inverts_encode() {
    let data: Vec<u8> = (0u16..=255).map(|b| b as u8).collect();
    let enc = hex_encode(&data);
    assert_eq!(hex_decode(&enc), Some(data));
}

#[test]
fn hex_decode_is_strict() {
    assert_eq!(hex_decode(&b"0".to_vec()), None);
    assert_eq!(hex_decode(&b"0g".to_vec()), None);
    assert_eq!(hex_decode(&b"AB".to_vec()), None);
    assert_eq!(hex_decode(&b"".to_vec()), Some(Vec::new()));
}

#[test]
fn decimal_digits_exact() {
    assert_eq!(u64_digits(0), b"0".to_vec());
    assert_eq!(u64_digits(86400), b"86400".to_vec());
    assert_eq!(u64_digits(u64::MAX), b"18446744073709551615".to_vec());
}

#[test]
fn decimal_parse_is_strict() {
    let v = b"18446744073709551615".to_vec();
    assert_eq!(parse_dec_range(&v, 0, v.len()), Some(u64::MAX));
    let v = b"18446744073709551616".to_vec();
    assert_eq!(parse_dec_range(&v, 0, v.len()), None);
    let v = b"01".to_vec();
    assert_eq!(parse_dec_range(&v, 0, v.len()), None);
    let v = b"0".to_vec();
    assert_eq!(parse_dec_range(&v, 0, v.len()), Some(0));
}

#[test]
fn payload_serialization_exact() {
    let c = Claims {
        exp: 1000,
        user: b"alice".to_vec(),
        groups: vec![b"lldap_admin".to_vec()],
    };
    assert_eq!(serialize_claims(&c), b"1000.5.alice.1.11.lldap_admin".to_vec());
}

#[test]
fn payload_round_trip() {
    let c = Claims {
        exp: 123456789,
        user: b"bob.smith".to_vec(),
        groups: vec![b"lldap_admin".to_vec(), b"staff".to_vec(), b"".to_vec()],
    };
    let bytes = serialize_claims(&c);
    let back = parse_claims_bytes(&bytes).expect("canonical payload must parse");
    assert_eq!(back.exp, c.exp);
    assert_eq!(back.user, c.user);
    assert_eq!(back.groups, c.groups);
}

#[test]
fn payload_round_trip_empty_groups() {
    let c = Claims { exp: 0, user: b"".to_vec(), groups: Vec::new() };
    let bytes = serialize_claims(&c);
    assert_eq!(bytes, b"0.0..0".to_vec());
    let back = parse_claims_bytes(&bytes).expect("canonical payload must parse");
    assert_eq!(back.exp, 0);
    assert_eq!(back.user, Vec::<u8>::new());
    assert_eq!(back.groups, Vec::<Vec<u8>>::new());
}

#[test]
fn payload_parse_rejects_trailing_junk() {
    assert!(parse_claims_bytes(&b"1000.5.alice.0".to_vec()).is_some());
    assert!(parse_claims_bytes(&b"1000.5.alice.0.".to_vec()).is_none());
    assert!(parse_claims_bytes(&b"1000.5.alice.0x".to_vec()).is_none());
    assert!(parse_claims_bytes(&b"1000.5.alice.1.11.lldap_admin!".to_vec()).is_none());
    assert!(parse_claims_bytes(&b"1000.6.alice.0".to_vec()).is_none());
    assert!(parse_claims_bytes(&b"".to_vec()).is_none());
}
