use aes::cipher::generic_array::GenericArray;
use aes::{Aes192, BlockCipher, NewBlockCipher};
use hmac::Hmac;
use sha1::{Digest, Sha1};

use librespot::audio::{AudioError, AudioPacket};
use librespot::authentication::{
    decode_auth_data, derive_blob_key, encode_auth_data, parse_blob, AuthenticationType,
    BlobError, Credentials,
};

const USERNAME: &str = "some user";
const DEVICE_ID: &str = "the device id";

fn expected_key(username: &str, device_id: &str) -> [u8; 24] {
    let secret = Sha1::digest(device_id.as_bytes());
    let mut key = [0u8; 24];
    pbkdf2::pbkdf2::<Hmac<Sha1>>(&secret, username.as_bytes(), 0x100, &mut key[0..20]);
    let hash = Sha1::digest(&key[..20]);
    key[..20].copy_from_slice(&hash);
    key[20..].copy_from_slice(&[0, 0, 0, 20]);
    key
}

#[allow(deprecated)]
fn encrypt_blob(plain: &[u8], key: &[u8; 24]) -> String {
    // chain each byte with the one 16 before it, then encrypt block by block
    let mut data = plain.to_vec();
    for i in 16..data.len() {
        data[i] ^= data[i - 16];
    }
    let cipher = Aes192::new(GenericArray::from_slice(key));
    for chunk in data.chunks_mut(16) {
        cipher.encrypt_block(GenericArray::from_mut_slice(chunk));
    }
    base64::encode(&data)
}

fn padded(mut plain: Vec<u8>) -> Vec<u8> {
    while plain.len() < 16 || plain.len() % 16 != 0 {
        plain.push(0);
    }
    plain
}

#[test]
fn authentication_type_numbers() {
    assert_eq!(AuthenticationType::from_i32(0), Some(AuthenticationType::AUTHENTICATION_USER_PASS));
    assert_eq!(
        AuthenticationType::from_i32(3),
        Some(AuthenticationType::AUTHENTICATION_SPOTIFY_TOKEN)
    );
    assert_eq!(AuthenticationType::from_i32(5), None);
    assert_eq!(AuthenticationType::from_i32(-1), None);
    for v in 0..5 {
        assert_eq!(AuthenticationType::from_i32(v).unwrap().value(), v);
    }
}

#[test]
fn credentials_with_password() {
    let creds = Credentials::with_password("my account", "my password");
    assert_eq!(creds.username, "my account");
    assert_eq!(creds.auth_type, AuthenticationType::AUTHENTICATION_USER_PASS);
    assert_eq!(creds.auth_data, b"my password".to_vec());
    let copy = creds.clone();
    assert_eq!(copy.username, creds.username);
    assert_eq!(copy.auth_data, creds.auth_data);
}

#[test]
fn auth_data_as_base64() {
    let creds = Credentials::with_password("u", "hello");
    assert_eq!(encode_auth_data(&creds.auth_data), "aGVsbG8=");
    assert_eq!(decode_auth_data("aGVsbG8=").unwrap(), b"hello".to_vec());
    assert_eq!(decode_auth_data("").unwrap(), Vec::<u8>::new());
    assert!(decode_auth_data("not base64!").is_err());
}

#[test]
fn auth_data_round_trip() {
    for data in [vec![], vec![0u8], vec![1, 2], vec![255, 0, 128], b"stored credentials".to_vec()] {
        let text = encode_auth_data(&data);
        assert_eq!(decode_auth_data(&text).unwrap(), data);
    }
}

#[test]
fn blob_fields() {
    let blob = [7, 2, 1, 2, 9, 0x83, 0x01, 5, 3, 10, 11, 12, 99];
    assert_eq!(parse_blob(&blob), Ok((131, vec![10, 11, 12])));
    let blob = [7, 0, 9, 1, 5, 0];
    assert_eq!(parse_blob(&blob), Ok((1, vec![])));
    assert_eq!(parse_blob(&[7]), Err(BlobError::UnexpectedEof));
    assert_eq!(parse_blob(&[7, 0, 9, 1, 5, 4, 1, 2]), Err(BlobError::UnexpectedEof));
}

#[test]
fn blob_key_from_device_and_user() {
    let key = derive_blob_key(USERNAME.as_bytes(), DEVICE_ID.as_bytes());
    assert_eq!(key, expected_key(USERNAME, DEVICE_ID));
    assert_ne!(key, derive_blob_key(USERNAME.as_bytes(), b"another device"));
}

#[test]
fn credentials_with_blob() {
    let plain = padded(vec![0x00, 0x03, b'a', b'b', b'c', 0x00, 0x01, 0x00, 0x05, b'h', b'e', b'l', b'l', b'o']);
    let text = encrypt_blob(&plain, &expected_key(USERNAME, DEVICE_ID));
    let creds = Credentials::with_blob(USERNAME, &text, DEVICE_ID).unwrap();
    assert_eq!(creds.username, USERNAME);
    assert_eq!(creds.auth_type, AuthenticationType::AUTHENTICATION_STORED_SPOTIFY_CREDENTIALS);
    assert_eq!(creds.auth_data, b"hello".to_vec());
    let checked = Credentials::try_with_blob(USERNAME, &text, DEVICE_ID).unwrap().unwrap();
    assert_eq!(checked.auth_data, b"hello".to_vec());
}

#[test]
fn blob_errors() {
    assert_eq!(
        Credentials::with_blob(USERNAME, "!!!!", DEVICE_ID).unwrap_err(),
        BlobError::InvalidData(base64::decode("!!!!").unwrap_err())
    );
    let plain = padded(vec![0x00, 0x40]);
    let text = encrypt_blob(&plain, &expected_key(USERNAME, DEVICE_ID));
    assert_eq!(
        Credentials::with_blob(USERNAME, &text, DEVICE_ID).unwrap_err(),
        BlobError::UnexpectedEof
    );
}

#[test]
fn blobs_that_cannot_be_read() {
    // not whole blocks
    let text = base64::encode(&[1u8, 2, 3, 4, 5]);
    assert!(Credentials::try_with_blob(USERNAME, &text, DEVICE_ID).is_none());
    // an unknown authentication type
    let plain = padded(vec![0x00, 0x00, 0x00, 0x07, 0x00, 0x00]);
    let text = encrypt_blob(&plain, &expected_key(USERNAME, DEVICE_ID));
    assert!(Credentials::try_with_blob(USERNAME, &text, DEVICE_ID).is_none());
    // invalid base64 is an error, not a panic
    assert!(matches!(
        Credentials::try_with_blob(USERNAME, "!!!!", DEVICE_ID).unwrap().unwrap_err(),
        BlobError::InvalidData(base64::DecodeError::InvalidByte(0, b'!'))
    ));
}

#[test]
fn audio_packets() {
    let samples = AudioPacket::Samples(vec![1, -2, 3]);
    assert_eq!(samples.samples(), &[1, -2, 3]);
    assert!(!samples.is_empty());
    let ogg = AudioPacket::OggData(vec![]);
    assert_eq!(ogg.oggdata(), &[] as &[u8]);
    assert!(ogg.is_empty());
    assert!(AudioPacket::Samples(vec![]).is_empty());
}

#[test]
fn audio_error_text() {
    assert_eq!(
        AudioError::PassthroughError("bad page".to_string()).describe(),
        "PassthroughError(bad page)"
    );
    assert_eq!(AudioError::VorbisError("eof".to_string()).describe(), "VorbisError(eof)");
}

#[test]
fn unknown_type_at_the_end_of_a_blob_cannot_be_read() {
    // the type number is the last byte: no data field follows it
    let mut plain = vec![0x00, 0x0c];
    plain.extend_from_slice(b"abcdefghijkl");
    plain.extend_from_slice(&[0x00, 0x09]);
    assert_eq!(plain.len(), 16);
    assert_eq!(parse_blob(&plain), Err(BlobError::UnexpectedEof));
    let text = encrypt_blob(&plain, &expected_key(USERNAME, DEVICE_ID));
    assert!(Credentials::try_with_blob(USERNAME, &text, DEVICE_ID).is_none());
    // with a known type number the missing data field is an error
    plain[15] = 0x01;
    let text = encrypt_blob(&plain, &expected_key(USERNAME, DEVICE_ID));
    assert_eq!(
        Credentials::with_blob(USERNAME, &text, DEVICE_ID).unwrap_err(),
        BlobError::UnexpectedEof
    );
    assert_eq!(
        Credentials::try_with_blob(USERNAME, &text, DEVICE_ID).unwrap().unwrap_err(),
        BlobError::UnexpectedEof
    );
}
