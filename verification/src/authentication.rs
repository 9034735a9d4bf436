use vstd::prelude::*;
use vstd::string::StringSliceAdditionalSpecFns;

use crate::bytes_be::{u32_be, u32_be_bytes};
use crate::crypto::{
    aes192_decrypt_block, base64_decode, base64_encode, pbkdf2_sha1, sha1,
};

verus! {

/// How a set of credentials authenticates.
#[allow(non_camel_case_types)]
#[derive(Clone, Copy, Debug, PartialEq, Eq, Hash)]
pub enum AuthenticationType {
    /// A user name and a password.
    AUTHENTICATION_USER_PASS,
    /// Credentials stored by a Spotify client.
    AUTHENTICATION_STORED_SPOTIFY_CREDENTIALS,
    /// Credentials stored for a Facebook login.
    AUTHENTICATION_STORED_FACEBOOK_CREDENTIALS,
    /// A Spotify token.
    AUTHENTICATION_SPOTIFY_TOKEN,
    /// A Facebook token.
    AUTHENTICATION_FACEBOOK_TOKEN,
}

impl AuthenticationType {
    /// The number that stands for the type on the wire.
    pub open spec fn value_spec(self) -> i32 {
        match self {
            AuthenticationType::AUTHENTICATION_USER_PASS => 0,
            AuthenticationType::AUTHENTICATION_STORED_SPOTIFY_CREDENTIALS => 1,
            AuthenticationType::AUTHENTICATION_STORED_FACEBOOK_CREDENTIALS => 2,
            AuthenticationType::AUTHENTICATION_SPOTIFY_TOKEN => 3,
            AuthenticationType::AUTHENTICATION_FACEBOOK_TOKEN => 4,
        }
    }

    /// The type that the number `value` stands for, if any.
    pub open spec fn from_value(value: int) -> Option<AuthenticationType> {
        if value == 0 {
            Some(AuthenticationType::AUTHENTICATION_USER_PASS)
        } else if value == 1 {
            Some(AuthenticationType::AUTHENTICATION_STORED_SPOTIFY_CREDENTIALS)
        } else if value == 2 {
            Some(AuthenticationType::AUTHENTICATION_STORED_FACEBOOK_CREDENTIALS)
        } else if value == 3 {
            Some(AuthenticationType::AUTHENTICATION_SPOTIFY_TOKEN)
        } else if value == 4 {
            Some(AuthenticationType::AUTHENTICATION_FACEBOOK_TOKEN)
        } else {
            None
        }
    }

    /// The number that stands for the type on the wire.
    pub fn value(&self) -> (v: i32)
        ensures
            v == self.value_spec(),
    {
        match self {
            AuthenticationType::AUTHENTICATION_USER_PASS => 0,
            AuthenticationType::AUTHENTICATION_STORED_SPOTIFY_CREDENTIALS => 1,
            AuthenticationType::AUTHENTICATION_STORED_FACEBOOK_CREDENTIALS => 2,
            AuthenticationType::AUTHENTICATION_SPOTIFY_TOKEN => 3,
            AuthenticationType::AUTHENTICATION_FACEBOOK_TOKEN => 4,
        }
    }

    /// The type that the number `value` stands for, if any.
    pub fn from_i32(value: i32) -> (t: Option<AuthenticationType>)
        ensures
            t == Self::from_value(value as int),
    {
        if value == 0 {
            Some(AuthenticationType::AUTHENTICATION_USER_PASS)
        } else if value == 1 {
            Some(AuthenticationType::AUTHENTICATION_STORED_SPOTIFY_CREDENTIALS)
        } else if value == 2 {
            Some(AuthenticationType::AUTHENTICATION_STORED_FACEBOOK_CREDENTIALS)
        } else if value == 3 {
            Some(AuthenticationType::AUTHENTICATION_SPOTIFY_TOKEN)
        } else if value == 4 {
            Some(AuthenticationType::AUTHENTICATION_FACEBOOK_TOKEN)
        } else {
            None
        }
    }
}

/// A type turned into its number and back is the same type, and a number that stands for a
/// type is that type's number.
pub proof fn lemma_authentication_type_round_trip(t: AuthenticationType, value: int)
    ensures
        AuthenticationType::from_value(t.value_spec() as int) == Some(t),
        AuthenticationType::from_value(value) matches Some(u) ==> u.value_spec() == value,
{
}

/// The protocol numbers of the authentication types: user name and password 0, stored
/// Spotify credentials 1, stored Facebook credentials 2, Spotify token 3, Facebook token 4.
/// No other number stands for a type.
pub proof fn lemma_authentication_type_numbers(value: int)
    ensures
        AuthenticationType::AUTHENTICATION_USER_PASS.value_spec() == 0,
        AuthenticationType::AUTHENTICATION_STORED_SPOTIFY_CREDENTIALS.value_spec() == 1,
        AuthenticationType::AUTHENTICATION_STORED_FACEBOOK_CREDENTIALS.value_spec() == 2,
        AuthenticationType::AUTHENTICATION_SPOTIFY_TOKEN.value_spec() == 3,
        AuthenticationType::AUTHENTICATION_FACEBOOK_TOKEN.value_spec() == 4,
        AuthenticationType::from_value(value) is Some <==> 0 <= value <= 4,
        AuthenticationType::from_value(value) matches Some(t) ==> t.value_spec() == value,
{
}

/// Why the credentials in a blob could not be read.
#[derive(Debug, PartialEq, Eq)]
pub enum BlobError {
    /// The blob is not valid base64, for the reason that the decoder gives.
    InvalidData(base64::DecodeError),
    /// The decrypted blob ends before all its fields.
    UnexpectedEof,
}

/// The credentials used to log into the Spotify API.
#[derive(Debug)]
pub struct Credentials {
    /// The user name.
    pub username: String,
    /// How `auth_data` authenticates.
    pub auth_type: AuthenticationType,
    /// The password, token or stored credentials.
    pub auth_data: Vec<u8>,
}

/// The byte at `pos` of `data` and the position after it.
pub open spec fn read_u8_at(data: Seq<u8>, pos: int) -> Option<(int, int)> {
    if 0 <= pos < data.len() {
        Some((data[pos] as int, pos + 1))
    } else {
        None
    }
}

/// The variable-length number at `pos` of `data` and the position after it: one byte below
/// 0x80 holds the number; otherwise its low 7 bits are the low bits of the number, and the
/// next byte holds the bits from the eighth on.
pub open spec fn read_int_at(data: Seq<u8>, pos: int) -> Option<(int, int)> {
    match read_u8_at(data, pos) {
        None => None,
        Some((lo, next)) => if lo < 0x80 {
            Some((lo, next))
        } else {
            match read_u8_at(data, next) {
                None => None,
                Some((hi, after)) => Some((lo - 0x80 + hi * 0x80, after)),
            }
        },
    }
}

/// The bytes of the length-prefixed field at `pos` of `data` and the position after it.
pub open spec fn read_bytes_at(data: Seq<u8>, pos: int) -> Option<(Seq<u8>, int)> {
    match read_int_at(data, pos) {
        None => None,
        Some((length, start)) => if start + length <= data.len() {
            Some((data.subrange(start, start + length), start + length))
        } else {
            None
        },
    }
}

/// The authentication type number that a decrypted blob holds, behind a byte, a
/// length-prefixed field and another byte, and the position after it; `None` where the blob
/// ends too early.
pub open spec fn blob_auth_type(blob: Seq<u8>) -> Option<(int, int)> {
    match read_u8_at(blob, 0) {
        None => None,
        Some((_, p1)) => match read_bytes_at(blob, p1) {
            None => None,
            Some((_, p2)) => match read_u8_at(blob, p2) {
                None => None,
                Some((_, p3)) => read_int_at(blob, p3),
            },
        },
    }
}

/// The authentication type number and the authentication data that a decrypted blob holds:
/// the data is a length-prefixed field one byte behind the type number (see
/// `blob_auth_type`); `None` where the blob ends too early.
pub open spec fn blob_fields(blob: Seq<u8>) -> Option<(int, Seq<u8>)> {
    match blob_auth_type(blob) {
        None => None,
        Some((auth_type, p4)) => match read_u8_at(blob, p4) {
            None => None,
            Some((_, p5)) => match read_bytes_at(blob, p5) {
                None => None,
                Some((auth_data, _)) => Some((auth_type, auth_data)),
            },
        },
    }
}

/// The variable-length form of a number below 0x8000: one byte where it is below 0x80, and
/// otherwise its low 7 bits with the high bit set, followed by the number shifted right by 7.
pub open spec fn int_bytes(n: int) -> Seq<u8> {
    if n < 0x80 {
        seq![n as u8]
    } else {
        seq![(0x80 + n % 0x80) as u8, (n / 0x80) as u8]
    }
}

/// A number below 0x8000 written in variable-length form at `pos` is read back, and reading
/// goes on right after it.
pub proof fn lemma_read_int_of_written(data: Seq<u8>, pos: int, n: int)
    requires
        0 <= n < 0x8000,
        0 <= pos,
        pos + int_bytes(n).len() <= data.len(),
        data.subrange(pos, pos + int_bytes(n).len()) == int_bytes(n),
    ensures
        read_int_at(data, pos) == Some((n, pos + int_bytes(n).len())),
{
    let w = int_bytes(n);
    assert(data[pos] == data.subrange(pos, pos + w.len())[0]);
    if n >= 0x80 {
        assert(data[pos + 1] == data.subrange(pos, pos + w.len())[1]);
        assert(n % 0x80 + (n / 0x80) * 0x80 == n) by (nonlinear_arith)
            requires
                0 <= n,
        ;
    }
}

/// A field of fewer than 0x8000 bytes written at `pos` behind its length in variable-length
/// form is read back, and reading goes on right after it.
pub proof fn lemma_read_bytes_of_written(data: Seq<u8>, pos: int, field: Seq<u8>)
    requires
        field.len() < 0x8000,
        0 <= pos,
        pos + int_bytes(field.len() as int).len() + field.len() <= data.len(),
        data.subrange(pos, pos + int_bytes(field.len() as int).len() + field.len()) == int_bytes(
            field.len() as int,
        ) + field,
    ensures
        read_bytes_at(data, pos) == Some(
            (field, pos + int_bytes(field.len() as int).len() + field.len()),
        ),
{
    let w = int_bytes(field.len() as int);
    let whole = data.subrange(pos, pos + w.len() + field.len());
    assert(data.subrange(pos, pos + w.len()) =~= whole.subrange(0, w.len() as int));
    assert(whole.subrange(0, w.len() as int) =~= w);
    lemma_read_int_of_written(data, pos, field.len() as int);
    assert(data.subrange(pos + w.len(), pos + w.len() + field.len()) =~= whole.subrange(
        w.len() as int,
        (w.len() + field.len()) as int,
    ));
    assert(whole.subrange(w.len() as int, (w.len() + field.len()) as int) =~= field);
}

/// A decrypted blob laid out as the reader expects gives back the authentication type number
/// and data written in it: a byte, a length-prefixed field, a byte, the type number, a byte
/// and the length-prefixed data, followed by anything.
pub proof fn lemma_blob_fields_of_written(
    b0: u8,
    name: Seq<u8>,
    b1: u8,
    auth_type: int,
    b2: u8,
    auth_data: Seq<u8>,
    rest: Seq<u8>,
)
    requires
        name.len() < 0x8000,
        0 <= auth_type < 0x8000,
        auth_data.len() < 0x8000,
    ensures
        blob_fields(
            seq![b0] + int_bytes(name.len() as int) + name + seq![b1] + int_bytes(auth_type) + seq![b2]
                + int_bytes(auth_data.len() as int) + auth_data + rest,
        ) == Some((auth_type, auth_data)),
{
    let f1 = int_bytes(name.len() as int) + name;
    let t = int_bytes(auth_type);
    let f2 = int_bytes(auth_data.len() as int) + auth_data;
    let blob = seq![b0] + int_bytes(name.len() as int) + name + seq![b1] + int_bytes(auth_type)
        + seq![b2] + int_bytes(auth_data.len() as int) + auth_data + rest;
    let p1: int = 1;
    let p2: int = p1 + f1.len();
    let p3: int = p2 + 1;
    let p4: int = p3 + t.len();
    let p5: int = p4 + 1;
    assert(blob =~= seq![b0] + f1 + seq![b1] + t + seq![b2] + f2 + rest);
    assert(blob[0] == b0);
    assert(blob.subrange(p1, p2) =~= f1);
    lemma_read_bytes_of_written(blob, p1, name);
    assert(blob[p2] == b1);
    assert(blob.subrange(p3, p4) =~= t);
    lemma_read_int_of_written(blob, p3, auth_type);
    assert(blob[p4] == b2);
    assert(blob.subrange(p5, p5 + f2.len()) =~= f2);
    lemma_read_bytes_of_written(blob, p5, auth_data);
}

/// The key that decrypts the blob of `username` on the device `device_id`: the SHA-1 digest
/// of the PBKDF2 key derived from the SHA-1 digest of the device id with the user name as
/// salt in 256 rounds, followed by the number 20 in four bytes, most significant first.
pub open spec fn blob_key(username: Seq<u8>, device_id: Seq<u8>) -> Seq<u8> {
    crate::crypto::sha1_digest(
        crate::crypto::pbkdf2_hmac_sha1(crate::crypto::sha1_digest(device_id), username, 0x100),
    ) + u32_be(20)
}

/// `data` decrypted block by block, 16 bytes each, with AES-192 under `key`.
pub open spec fn ecb_decrypt(key: Seq<u8>, data: Seq<u8>) -> Seq<u8> {
    Seq::new(
        data.len(),
        |i: int| crate::crypto::aes192_decrypt(key, data.subrange(i - i % 16, i - i % 16 + 16))[i % 16],
    )
}

/// Each byte from the 17th on combined by exclusive or with the byte 16 places before it.
pub open spec fn unchain(data: Seq<u8>) -> Seq<u8> {
    Seq::new(data.len(), |i: int| if i < 16 { data[i] } else { data[i] ^ data[i - 16] })
}

/// The chaining that the plaintext of a blob goes through before it is encrypted: each byte
/// from the 17th on is combined by exclusive or with the chained byte 16 places before it.
pub open spec fn chain(plain: Seq<u8>) -> Seq<u8>
    decreases plain.len(),
{
    if plain.len() <= 16 {
        plain
    } else {
        let front = chain(plain.drop_last());
        front.push(plain.last() ^ front[plain.len() - 17])
    }
}

proof fn lemma_chain_bytes(plain: Seq<u8>)
    ensures
        chain(plain).len() == plain.len(),
        forall|i: int| 0 <= i < 16 && i < plain.len() ==> #[trigger] chain(plain)[i] == plain[i],
        forall|i: int|
            16 <= i < plain.len() ==> #[trigger] chain(plain)[i] == plain[i] ^ chain(plain)[i - 16],
    decreases plain.len(),
{
    if plain.len() > 16 {
        let front = plain.drop_last();
        lemma_chain_bytes(front);
        let c = chain(plain);
        assert forall|i: int| 0 <= i < plain.len() - 1 implies #[trigger] c[i] == chain(front)[i] by {}
    }
}

/// Removing the chaining gives back what was chained: `unchain` undoes `chain`, for a
/// plaintext of any length.
pub proof fn lemma_unchain_undoes_chain(plain: Seq<u8>)
    ensures
        unchain(chain(plain)) == plain,
{
    lemma_chain_bytes(plain);
    let c = chain(plain);
    assert forall|i: int| 0 <= i < plain.len() implies #[trigger] unchain(c)[i] == plain[i] by {
        if i >= 16 {
            let (p, q) = (plain[i], c[i - 16]);
            assert((p ^ q) ^ q == p) by (bit_vector);
        }
    }
    assert(unchain(c) =~= plain);
}

/// The plaintext of the encrypted blob `data` of `username` on the device `device_id`.
pub open spec fn blob_plaintext(username: Seq<u8>, device_id: Seq<u8>, data: Seq<u8>) -> Seq<u8> {
    unchain(ecb_decrypt(blob_key(username, device_id), data))
}

/// The inputs on which reading credentials from a blob neither fails an assertion nor meets
/// an unknown authentication type: the decoded blob is made of whole 16-byte blocks, and the
/// authentication type number, wherever the plaintext holds one in full, is known, whether or
/// not the data behind it can be read.
pub open spec fn blob_readable(username: Seq<u8>, blob_text: Seq<u8>, device_id: Seq<u8>) -> bool {
    &&& blob_text.len() + 3 <= usize::MAX
    &&& match crate::crypto::base64_decoded(blob_text) {
        None => true,
        Some(data) => {
            &&& data.len() % 16 == 0
            &&& data.len() >= 16
            &&& match blob_auth_type(blob_plaintext(username, device_id, data)) {
                None => true,
                Some((t, _)) => AuthenticationType::from_value(t) is Some,
            }
        },
    }
}

/// What reading credentials from a blob gives: an error where the blob is not base64 or its
/// plaintext ends too early, and otherwise the credentials of `username` with the type and
/// data of the plaintext.
pub open spec fn blob_result(
    username: Seq<char>,
    username_bytes: Seq<u8>,
    blob_text: Seq<u8>,
    device_id: Seq<u8>,
    r: Result<Credentials, BlobError>,
) -> bool {
    match crate::crypto::base64_decoded(blob_text) {
        None => r matches Err(BlobError::InvalidData(_)),
        Some(data) => match blob_fields(blob_plaintext(username_bytes, device_id, data)) {
            None => r == Err::<Credentials, BlobError>(BlobError::UnexpectedEof),
            Some((t, auth_data)) => r matches Ok(c) && {
                &&& c.username@ == username
                &&& AuthenticationType::from_value(t) == Some(c.auth_type)
                &&& c.auth_data@ == auth_data
            },
        },
    }
}

/// Reads the byte at `pos` of `data`.
fn read_u8(data: &[u8], pos: usize) -> (r: Result<(u8, usize), BlobError>)
    ensures
        r is Ok <==> read_u8_at(data@, pos as int) is Some,
        r matches Ok((v, p)) ==> read_u8_at(data@, pos as int) == Some((v as int, p as int)),
        r is Err ==> r == Err::<(u8, usize), BlobError>(BlobError::UnexpectedEof),
{
    if pos < data.len() {
        Ok((data[pos], pos + 1))
    } else {
        Err(BlobError::UnexpectedEof)
    }
}

/// Reads the variable-length number at `pos` of `data`.
fn read_int(data: &[u8], pos: usize) -> (r: Result<(u32, usize), BlobError>)
    ensures
        r is Ok <==> read_int_at(data@, pos as int) is Some,
        r matches Ok((v, p)) ==> read_int_at(data@, pos as int) == Some((v as int, p as int)),
        r is Err ==> r == Err::<(u32, usize), BlobError>(BlobError::UnexpectedEof),
{
    let (lo, next) = read_u8(data, pos)?;
    if lo < 0x80 {
        return Ok((lo as u32, next));
    }
    let (hi, after) = read_u8(data, next)?;
    Ok(((lo - 0x80) as u32 + (hi as u32) * 0x80, after))
}

/// Reads the length-prefixed field at `pos` of `data`.
fn read_bytes(data: &[u8], pos: usize) -> (r: Result<(Vec<u8>, usize), BlobError>)
    ensures
        r is Ok <==> read_bytes_at(data@, pos as int) is Some,
        r matches Ok((v, p)) ==> read_bytes_at(data@, pos as int) == Some((v@, p as int)),
        r is Err ==> r is Err && r->Err_0 == BlobError::UnexpectedEof,
{
    let (length, start) = read_int(data, pos)?;
    let length = length as usize;
    if length > data.len() - start {
        return Err(BlobError::UnexpectedEof);
    }
    let mut field: Vec<u8> = Vec::new();
    let mut i: usize = 0;
    while i < length
        invariant
            start + length <= data@.len(),
            data@.len() == data.len(),
            i <= length,
            field@ == data@.subrange(start as int, start + i),
        decreases length - i,
    {
        field.push(data[start + i]);
        proof {
            assert(field@ =~= data@.subrange(start as int, start + i + 1));
        }
        i = i + 1;
    }
    Ok((field, start + length))
}

/// Reads the authentication type number from a decrypted blob (see `blob_auth_type`).
fn read_auth_type(blob: &[u8]) -> (r: Result<(u32, usize), BlobError>)
    ensures
        r is Ok <==> blob_auth_type(blob@) is Some,
        r matches Ok((t, p)) ==> blob_auth_type(blob@) == Some((t as int, p as int)),
        r is Err ==> r is Err && r->Err_0 == BlobError::UnexpectedEof,
{
    let (_, p1) = read_u8(blob, 0)?;
    let (_, p2) = read_bytes(blob, p1)?;
    let (_, p3) = read_u8(blob, p2)?;
    read_int(blob, p3)
}

/// Reads the authentication type number and data from a decrypted blob (see `blob_fields`).
pub fn parse_blob(blob: &[u8]) -> (r: Result<(u32, Vec<u8>), BlobError>)
    ensures
        r is Ok <==> blob_fields(blob@) is Some,
        r matches Ok((t, d)) ==> blob_fields(blob@) == Some((t as int, d@)),
        r is Err ==> r is Err && r->Err_0 == BlobError::UnexpectedEof,
{
    let (auth_type, p4) = read_auth_type(blob)?;
    let (_, p5) = read_u8(blob, p4)?;
    let (auth_data, _) = read_bytes(blob, p5)?;
    Ok((auth_type, auth_data))
}

/// The key that decrypts the blob of `username` on the device `device_id` (see `blob_key`).
pub fn derive_blob_key(username: &[u8], device_id: &[u8]) -> (key: [u8; 24])
    ensures
        key@ == blob_key(username@, device_id@),
{
    let secret = sha1(device_id);
    let derived = pbkdf2_sha1(&secret, username, 0x100);
    let hash = sha1(&derived);
    let suffix = u32_be_bytes(20);
    let mut key = [0u8; 24];
    let mut i: usize = 0;
    while i < 20
        invariant
            i <= 20,
            forall|k: int| 0 <= k < i ==> key@[k] == hash@[k],
        decreases 20 - i,
    {
        key[i] = hash[i];
        i = i + 1;
    }
    while i < 24
        invariant
            20 <= i <= 24,
            forall|k: int| 0 <= k < 20 ==> key@[k] == hash@[k],
            forall|k: int| 20 <= k < i ==> key@[k] == suffix@[k - 20],
        decreases 24 - i,
    {
        key[i] = suffix[i - 20];
        i = i + 1;
    }
    proof {
        assert(key@ =~= hash@ + suffix@);
    }
    key
}

/// Decrypts an encrypted blob under `key`: AES-192 block by block, then each byte from the
/// 17th on combined with the byte 16 places before it (see `ecb_decrypt` and `unchain`).
pub fn decrypt_blob(key: &[u8; 24], data: Vec<u8>) -> (plain: Vec<u8>)
    requires
        data@.len() % 16 == 0,
        data@.len() >= 16,
    ensures
        plain@ == unchain(ecb_decrypt(key@, data@)),
{
    let ghost encrypted = data@;
    let ghost decrypted = ecb_decrypt(key@, encrypted);
    let mut data = data;
    let n = data.len();
    let mut b: usize = 0;
    while b < n
        invariant
            n == data@.len(),
            n == encrypted.len(),
            n % 16 == 0,
            b % 16 == 0,
            b <= n,
            decrypted == ecb_decrypt(key@, encrypted),
            forall|i: int| 0 <= i < b ==> data@[i] == decrypted[i],
            forall|i: int| b <= i < n ==> data@[i] == encrypted[i],
        decreases n - b,
    {
        let mut block = [0u8; 16];
        let mut j: usize = 0;
        while j < 16
            invariant
                j <= 16,
                b + 16 <= n,
                n == data@.len(),
                n == encrypted.len(),
                forall|i: int| b <= i < n ==> data@[i] == encrypted[i],
                forall|k: int| 0 <= k < j ==> block@[k] == encrypted[b + k],
            decreases 16 - j,
        {
            block[j] = data[b + j];
            j = j + 1;
        }
        let out = aes192_decrypt_block(key, block);
        proof {
            assert(block@ =~= encrypted.subrange(b as int, b + 16));
        }
        let ghost before = data@;
        j = 0;
        while j < 16
            invariant
                j <= 16,
                b + 16 <= n,
                n == data@.len(),
                n == encrypted.len(),
                before.len() == n,
                b % 16 == 0,
                decrypted == ecb_decrypt(key@, encrypted),
                out@ == crate::crypto::aes192_decrypt(key@, encrypted.subrange(b as int, b + 16)),
                forall|i: int| 0 <= i < b ==> data@[i] == decrypted[i],
                forall|i: int| b + j <= i < n ==> data@[i] == before[i],
                forall|i: int| b <= i < b + j ==> data@[i] == decrypted[i],
            decreases 16 - j,
        {
            proof {
                let i = b + j;
                assert(i % 16 == j as int);
                assert(i - i % 16 == b);
                assert(decrypted[i] == out@[j as int]);
            }
            data.set(b + j, out[j]);
            j = j + 1;
        }
        proof {
            assert forall|i: int| 0 <= i < b + 16 implies data@[i] == decrypted[i] by {
            }
        }
        b = b + 16;
    }
    // undo the chaining from the end, so that each byte meets the one 16 before it as it was
    let ghost chained = data@;
    let l = data.len();
    let mut i: usize = 0;
    while i < l - 0x10
        invariant
            l == data@.len(),
            l == chained.len(),
            l >= 16,
            i <= l - 16,
            forall|k: int| 0 <= k < l - i ==> data@[k] == chained[k],
            forall|k: int| l - i <= k < l ==> data@[k] == chained[k] ^ chained[k - 16],
        decreases l - 16 - i,
    {
        let x = data[l - i - 1] ^ data[l - i - 0x11];
        data.set(l - i - 1, x);
        i = i + 1;
    }
    proof {
        assert(data@ =~= unchain(chained));
        assert(chained =~= decrypted);
    }
    data
}

impl Clone for Credentials {
    /// A copy of the credentials.
    fn clone(&self) -> (c: Self)
        ensures
            c.username@ == self.username@,
            c.auth_type == self.auth_type,
            c.auth_data@ == self.auth_data@,
    {
        let mut auth_data: Vec<u8> = Vec::new();
        let mut i: usize = 0;
        while i < self.auth_data.len()
            invariant
                i <= self.auth_data@.len(),
                auth_data@ == self.auth_data@.subrange(0, i as int),
            decreases self.auth_data@.len() - i,
        {
            auth_data.push(self.auth_data[i]);
            proof {
                assert(auth_data@ =~= self.auth_data@.subrange(0, i + 1));
            }
            i = i + 1;
        }
        proof {
            assert(auth_data@ =~= self.auth_data@);
        }
        Credentials {
            username: self.username.clone(),
            auth_type: self.auth_type,
            auth_data,
        }
    }
}

impl Credentials {
    /// Credentials from a user name and a password.
    pub fn with_password(username: &str, password: &str) -> (c: Credentials)
        ensures
            c.username@ == username@,
            c.auth_type == AuthenticationType::AUTHENTICATION_USER_PASS,
            c.auth_data@ == password.spec_bytes(),
    {
        Credentials {
            username: username.to_owned(),
            auth_type: AuthenticationType::AUTHENTICATION_USER_PASS,
            auth_data: password.as_bytes_vec(),
        }
    }

    /// Reads the credentials of `username` from an encrypted blob, with `device_id` as the
    /// secret (see `blob_result`). The decoded blob must be made of whole 16-byte blocks and
    /// must name a known authentication type (see `blob_readable`).
    pub fn with_blob(username: &str, encrypted_blob: &str, device_id: &str) -> (r: Result<
        Credentials,
        BlobError,
    >)
        requires
            blob_readable(username.spec_bytes(), encrypted_blob.spec_bytes(), device_id.spec_bytes()),
        ensures
            blob_result(
                username@,
                username.spec_bytes(),
                encrypted_blob.spec_bytes(),
                device_id.spec_bytes(),
                r,
            ),
    {
        let username_bytes = username.as_bytes();
        let key = derive_blob_key(username_bytes, device_id.as_bytes());
        let data = match base64_decode(encrypted_blob.as_bytes()) {
            Ok(data) => data,
            Err(e) => return Err(BlobError::InvalidData(e)),
        };
        let blob = decrypt_blob(&key, data);
        let (auth_type, auth_data) = match parse_blob(blob.as_slice()) {
            Ok(fields) => fields,
            Err(e) => return Err(e),
        };
        let auth_type = match AuthenticationType::from_i32(auth_type as i32) {
            Some(t) => t,
            None => {
                // ruled out by `blob_readable`
                proof {
                    assert(false);
                }
                return Err(BlobError::UnexpectedEof);
            },
        };
        Ok(Credentials { username: username.to_owned(), auth_type, auth_data })
    }

    /// Reads credentials from a blob as `with_blob` does, where `blob_readable` holds of the
    /// inputs; `None` where it does not.
    pub fn try_with_blob(username: &str, encrypted_blob: &str, device_id: &str) -> (r: Option<
        Result<Credentials, BlobError>,
    >)
        ensures
            r is Some <==> blob_readable(
                username.spec_bytes(),
                encrypted_blob.spec_bytes(),
                device_id.spec_bytes(),
            ),
            r matches Some(res) ==> blob_result(
                username@,
                username.spec_bytes(),
                encrypted_blob.spec_bytes(),
                device_id.spec_bytes(),
                res,
            ),
    {
        let text = encrypted_blob.as_bytes();
        if text.len() > usize::MAX - 3 {
            return None;
        }
        match base64_decode(text) {
            Err(_) => {},
            Ok(data) => {
                if data.len() % 16 != 0 || data.len() < 16 {
                    return None;
                }
                let key = derive_blob_key(username.as_bytes(), device_id.as_bytes());
                let blob = decrypt_blob(&key, data);
                if let Ok((auth_type, _)) = read_auth_type(blob.as_slice()) {
                    if AuthenticationType::from_i32(auth_type as i32).is_none() {
                        return None;
                    }
                }
            },
        }
        Some(Credentials::with_blob(username, encrypted_blob, device_id))
    }
}

/// Authentication data as standard base64 text, the form in which it is stored. Decoding the
/// text (see `decode_auth_data`) gives the data back.
pub fn encode_auth_data(data: &[u8]) -> (text: String)
    requires
        data@.len() / 3 * 4 + 4 <= usize::MAX,
    ensures
        text@ == crate::crypto::base64_encoded(data@),
        crate::crypto::base64_decoded(vstd::utf8::encode_utf8(text@)) == Some(data@),
{
    base64_encode(data)
}

/// Authentication data from the standard base64 text in which it is stored, or the decoding
/// error.
pub fn decode_auth_data(text: &str) -> (r: Result<Vec<u8>, base64::DecodeError>)
    requires
        text.spec_bytes().len() + 3 <= usize::MAX,
    ensures
        r is Ok <==> crate::crypto::base64_decoded(text.spec_bytes()) is Some,
        r matches Ok(data) ==> data@ == crate::crypto::base64_decoded(text.spec_bytes())->0,
{
    base64_decode(text.as_bytes())
}

} // verus!
