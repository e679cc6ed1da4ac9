use aes::Aes256;
use base64::Engine;
use cfb_mode::cipher::{AsyncStreamCipher, KeyIvInit};
use fleet_suggest::decryptor::{check_password, decode_payload, parse_godot_bytes, password_to_key, PayloadError};
use std::io::Write;

fn encrypted_save(password: &str, payload: &[u8]) -> (Vec<u8>, Vec<u8>) {
    let mut gz = flate2::write::GzEncoder::new(Vec::new(), flate2::Compression::default());
    gz.write_all(payload).unwrap();
    let zipped = gz.finish().unwrap();
    let plain = base64::engine::general_purpose::STANDARD.encode(&zipped).into_bytes();
    let key_hex = format!("{:x}", md5::compute(password.as_bytes()));
    let key: [u8; 32] = key_hex.as_bytes().try_into().unwrap();
    let iv = [7u8; 16];
    let mut ct = plain.clone();
    cfb_mode::Encryptor::<Aes256>::new(&key.into(), &iv.into()).encrypt(&mut ct);
    let mut file = b"GDEC".to_vec();
    file.extend_from_slice(&md5::compute(&plain).0);
    file.extend_from_slice(&(plain.len() as u64).to_le_bytes());
    file.extend_from_slice(&iv);
    file.extend_from_slice(&ct);
    (file, plain)
}

#[test]
fn key_is_hex_md5() {
    assert_eq!(&password_to_key("abc"), b"900150983cd24fb0d6963f7d28e17f72");
    assert_eq!(&password_to_key(""), b"d41d8cd98f00b204e9800998ecf8427e");
}

#[test]
fn header_fields() {
    let mut bytes = vec![0u8; 4];
    bytes.extend((1u8..=16).collect::<Vec<u8>>());
    bytes.extend_from_slice(&300u64.to_le_bytes());
    bytes.extend([9u8; 16]);
    bytes.extend([1u8, 2, 3]);
    let f = parse_godot_bytes(&bytes);
    assert_eq!(f.expected_md5[0], 1);
    assert_eq!(f.expected_md5[15], 16);
    assert_eq!(f.original_length, 300);
    assert_eq!(f.iv, [9u8; 16]);
    assert_eq!(f.ciphertext, vec![1, 2, 3]);
}

#[test]
fn right_password_opens_the_save() {
    let (file, plain) = encrypted_save("hunter2", b"{\"gold\":12}");
    let f = parse_godot_bytes(&file);
    assert_eq!(check_password(&f, "wrong"), None);
    let got = check_password(&f, "hunter2").unwrap();
    assert_eq!(got, plain);
    assert_eq!(decode_payload(&got), Ok(b"{\"gold\":12}".to_vec()));
}

#[test]
fn payload_errors() {
    assert_eq!(decode_payload(&b"!!not base64!!".to_vec()), Err(PayloadError::Base64));
    let b64 = base64::engine::general_purpose::STANDARD.encode(b"not gzip data").into_bytes();
    assert_eq!(decode_payload(&b64), Err(PayloadError::Gzip));
}
