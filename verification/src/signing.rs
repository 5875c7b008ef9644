//! Request signatures: HMAC-SHA256 through `hmac` and `sha2`, written in
//! lower-case hexadecimal through `hex`.

use vstd::prelude::*;
use vstd::utf8::encode_utf8;
use hmac::{Hmac, Mac, NewMac};
use sha2::Sha256;

verus! {

/// The HMAC-SHA256 tag of `message` under `key`, as `hmac::Hmac<sha2::Sha256>`
/// computes it.
pub uninterp spec fn hmac_sha256(key: Seq<u8>, message: Seq<u8>) -> Seq<u8>;

/// The lower-case hexadecimal digit of `v` (0 to 15).
pub open spec fn hex_digit(v: int) -> char {
    if v < 10 {
        crate::text::digit_char(v)
    } else if v == 10 {
        'a'
    } else if v == 11 {
        'b'
    } else if v == 12 {
        'c'
    } else if v == 13 {
        'd'
    } else if v == 14 {
        'e'
    } else {
        'f'
    }
}

/// Each byte as two lower-case hexadecimal digits, high half first.
pub open spec fn lower_hex(bytes: Seq<u8>) -> Seq<char>
    decreases bytes.len(),
{
    if bytes.len() == 0 {
        seq![]
    } else {
        lower_hex(bytes.drop_last()) + seq![
            hex_digit(bytes.last() as int / 16),
            hex_digit(bytes.last() as int % 16),
        ]
    }
}

/// Two hexadecimal digits per byte.
pub proof fn lemma_lower_hex_len(bytes: Seq<u8>)
    ensures
        lower_hex(bytes).len() == 2 * bytes.len(),
    decreases bytes.len(),
{
    if bytes.len() > 0 {
        lemma_lower_hex_len(bytes.drop_last());
    }
}

/// Calls `Hmac::<Sha256>::new_from_slice` (which accepts a key of any length),
/// `Mac::update` and `Mac::finalize`. Claims that the tag is
/// `hmac_sha256(key@, message@)` and that it is 32 bytes long, the output size
/// of SHA-256.
#[verifier::external_body]
fn hmac_sha256_tag(key: &[u8], message: &[u8]) -> (tag: Vec<u8>)
    ensures
        tag@ == hmac_sha256(key@, message@),
        tag@.len() == 32,
{
    let mut mac = Hmac::<Sha256>::new_from_slice(key).unwrap();
    mac.update(message);
    mac.finalize().into_bytes().to_vec()
}

/// Calls `hex::encode`. Claims that it writes each byte as two lower-case
/// hexadecimal digits, high half first, as its table `0123456789abcdef`
/// does.
#[verifier::external_body]
fn hex_encode(bytes: &[u8]) -> (text: String)
    ensures
        text@ == lower_hex(bytes@),
{
    hex::encode(bytes)
}

/// The signature of `data` under `secret`: the HMAC-SHA256 tag of the UTF-8
/// bytes of `data`, keyed by those of `secret`, in lower-case hexadecimal.
pub fn get_mac_sha256(data: &String, secret: &String) -> (signature: String)
    ensures
        signature@ == lower_hex(hmac_sha256(encode_utf8(secret@), encode_utf8(data@))),
        signature@.len() == 64,
{
    let tag = hmac_sha256_tag(secret.as_str().as_bytes(), data.as_str().as_bytes());
    proof {
        lemma_lower_hex_len(tag@);
    }
    hex_encode(tag.as_slice())
}

} // verus!
