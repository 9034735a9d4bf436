use vstd::prelude::*;

use aes::cipher::generic_array::GenericArray;
use aes::{Aes192, BlockCipher, NewBlockCipher};
use hmac::Hmac;
use sha1::{Digest, Sha1};

verus! {

/// The SHA-1 digest of `data`.
pub uninterp spec fn sha1_digest(data: Seq<u8>) -> Seq<u8>;

/// The 20 bytes that PBKDF2 with HMAC-SHA-1 derives from `password` and `salt` in `rounds`
/// rounds.
pub uninterp spec fn pbkdf2_hmac_sha1(password: Seq<u8>, salt: Seq<u8>, rounds: u32) -> Seq<u8>;

/// The decryption of the 16-byte `block` with AES-192 under the 24-byte `key`.
pub uninterp spec fn aes192_decrypt(key: Seq<u8>, block: Seq<u8>) -> Seq<u8>;

/// The bytes that standard base64 `text` decodes to, or `None` where it is not valid base64.
pub uninterp spec fn base64_decoded(text: Seq<u8>) -> Option<Seq<u8>>;

/// The standard base64 encoding, with padding, of `data`.
pub uninterp spec fn base64_encoded(data: Seq<u8>) -> Seq<char>;

#[verifier::external_type_specification]
#[verifier::external_body]
pub struct ExDecodeError(base64::DecodeError);

/// `sha1::Sha1::digest`: the SHA-1 digest of `data`, which has 20 bytes.
#[verifier::external_body]
pub(crate) fn sha1(data: &[u8]) -> (digest: [u8; 20])
    ensures
        digest@ == sha1_digest(data@),
{
    let d = Sha1::digest(data);
    let mut out = [0u8; 20];
    out.copy_from_slice(&d);
    out
}

/// `pbkdf2::pbkdf2` with HMAC-SHA-1 into a 20-byte buffer: the buffer then holds the key
/// derived from `password` and `salt` in `rounds` rounds.
#[verifier::external_body]
pub(crate) fn pbkdf2_sha1(password: &[u8], salt: &[u8], rounds: u32) -> (key: [u8; 20])
    ensures
        key@ == pbkdf2_hmac_sha1(password@, salt@, rounds),
{
    let mut key = [0u8; 20];
    pbkdf2::pbkdf2::<Hmac<Sha1>>(password, salt, rounds, &mut key);
    key
}

/// `aes::Aes192::new` with `key`, then `decrypt_block` on `block`: the decrypted block.
#[verifier::external_body]
#[allow(deprecated)]
pub(crate) fn aes192_decrypt_block(key: &[u8; 24], block: [u8; 16]) -> (out: [u8; 16])
    ensures
        out@ == aes192_decrypt(key@, block@),
{
    let cipher = Aes192::new(GenericArray::from_slice(key));
    let mut b = GenericArray::clone_from_slice(&block);
    cipher.decrypt_block(&mut b);
    let mut out = [0u8; 16];
    out.copy_from_slice(&b);
    out
}

/// `base64::decode`: the bytes that `text` decodes to, or the error where it is not valid
/// base64. It panics where the length computation overflows, which `requires` rules out.
#[verifier::external_body]
pub(crate) fn base64_decode(text: &[u8]) -> (res: Result<Vec<u8>, base64::DecodeError>)
    requires
        text@.len() + 3 <= usize::MAX,
    ensures
        res is Ok <==> base64_decoded(text@) is Some,
        res matches Ok(data) ==> data@ == base64_decoded(text@)->0,
{
    base64::decode(text)
}

/// `base64::encode`: the base64 text of `data`, in the standard alphabet with padding, which
/// `base64::decode` turns back into `data`. It panics where the length of the text overflows,
/// which `requires` rules out.
#[verifier::external_body]
pub(crate) fn base64_encode(data: &[u8]) -> (text: String)
    requires
        data@.len() / 3 * 4 + 4 <= usize::MAX,
    ensures
        text@ == base64_encoded(data@),
        base64_decoded(vstd::utf8::encode_utf8(text@)) == Some(data@),
{
    base64::encode(data)
}

} // verus!
