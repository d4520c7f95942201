//! The signing primitive: HMAC with SHA-512 over a process-wide key.

use vstd::prelude::*;

verus! {

/// Tag of the keyed-hash message authentication code over SHA-512.
/// The value is determined by the key and the message alone.
pub uninterp spec fn hmac_sha512_of(key: Seq<u8>, msg: Seq<u8>) -> Seq<u8>;

/// Relies on `hmac::Hmac<sha2::Sha512>`: HMAC per RFC 2104 over
/// SHA-512.  The tag is a pure function of key and message, is 64
/// bytes long (the SHA-512 output size), and a key of any length is
/// accepted, so `new_from_slice` cannot fail.
#[verifier::external_body]
pub fn hmac_sha512(key: &Vec<u8>, msg: &Vec<u8>) -> (tag: Vec<u8>)
    ensures
        tag@ == hmac_sha512_of(key@, msg@),
        tag@.len() == 64,
{
    let mut mac = <hmac::Hmac<sha2::Sha512> as hmac::KeyInit>::new_from_slice(key.as_slice())
        .expect("HMAC accepts keys of any length");
    hmac::Mac::update(&mut mac, msg.as_slice());
    hmac::Mac::finalize(mac).into_bytes().to_vec()
}

} // verus!
