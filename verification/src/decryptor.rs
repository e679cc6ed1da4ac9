//! Recovering an encrypted game save: reading its header, deriving the AES key from a candidate
//! password, checking a candidate against the stored MD5, and unpacking the plaintext.
use vstd::prelude::*;
use vstd::bytes::{spec_u64_from_le_bytes, u64_from_le_bytes};
use vstd::slice::slice_subrange;
use vstd::string::StringSliceAdditionalSpecFns;
use cfb_mode::cipher::{AsyncStreamCipher, KeyIvInit};
use base64::Engine;
use std::io::Read;

verus! {

broadcast use vstd::seq_lib::group_seq_properties;

/// The error of a Base64 decoder (`base64::DecodeError`).
#[verifier::external_type_specification]
#[verifier::external_body]
pub struct ExDecodeError(base64::DecodeError);

/// An I/O error (`std::io::Error`), here from reading a gzip stream held in memory.
#[verifier::external_type_specification]
#[verifier::external_body]
pub struct ExIoError(std::io::Error);

/// An encrypted save: the MD5 of the plaintext, the plaintext length, the IV and the
/// ciphertext.
pub struct EncryptedFile {
    pub expected_md5: [u8; 16],
    pub original_length: u64,
    pub iv: [u8; 16],
    pub ciphertext: Vec<u8>,
}

fn copy_16(bytes: &[u8], from: usize) -> (r: [u8; 16])
    requires
        from + 16 <= bytes@.len(),
    ensures
        r@ == bytes@.subrange(from as int, from + 16),
{
    let mut r = [0u8; 16];
    let n = bytes.len();
    let mut i: usize = 0;
    while i < 16
        invariant
            i <= 16,
            n == bytes@.len(),
            from + 16 <= bytes@.len(),
            forall|k: int| 0 <= k < i ==> r@[k] == bytes@[from + k],
        decreases 16 - i,
    {
        r[i] = bytes[from + i];
        i = i + 1;
    }
    assert(r@ =~= bytes@.subrange(from as int, from + 16));
    r
}

/// Reads the header of an encrypted save: a 4-byte magic number, the 16-byte MD5 of the
/// plaintext, its length as a little-endian `u64`, the 16-byte IV, then the ciphertext.
pub fn parse_godot_bytes(bytes: &[u8]) -> (r: EncryptedFile)
    requires
        bytes@.len() >= 44,
    ensures
        r.expected_md5@ == bytes@.subrange(4, 20),
        r.original_length == spec_u64_from_le_bytes(bytes@.subrange(20, 28)),
        r.iv@ == bytes@.subrange(28, 44),
        r.ciphertext@ == bytes@.skip(44),
{
    let expected_md5 = copy_16(bytes, 4);
    let len_bytes = slice_subrange(bytes, 20, 28);
    let original_length = u64_from_le_bytes(len_bytes);
    let iv = copy_16(bytes, 28);
    let rest = slice_subrange(bytes, 44, bytes.len());
    let mut ciphertext: Vec<u8> = Vec::new();
    let mut i: usize = 0;
    while i < rest.len()
        invariant
            i <= rest@.len(),
            ciphertext@ == rest@.take(i as int),
        decreases rest@.len() - i,
    {
        ciphertext.push(rest[i]);
        i = i + 1;
        assert(ciphertext@ =~= rest@.take(i as int));
    }
    assert(rest@.take(rest@.len() as int) =~= bytes@.skip(44));
    EncryptedFile { expected_md5, original_length, iv, ciphertext }
}

/// The MD5 digest of some bytes (`md5::compute`).
pub uninterp spec fn md5_digest(data: Seq<u8>) -> Seq<u8>;

/// Calls `md5::compute`; its 16-byte digest is named `md5_digest`.
#[verifier::external_body]
fn md5_of(data: &[u8]) -> (r: [u8; 16])
    ensures
        r@ == md5_digest(data@),
{
    md5::compute(data).0
}

/// The ASCII lower-case hex digit of a value below sixteen.
pub open spec fn hex_digit(d: int) -> u8 {
    if d < 10 { (d + 48) as u8 } else { (d - 10 + 97) as u8 }
}

/// The lower-case hex text of some bytes, two digits per byte, as ASCII bytes.
pub open spec fn hex_lower(d: Seq<u8>) -> Seq<u8>
    decreases d.len(),
{
    if d.len() == 0 {
        Seq::empty()
    } else {
        hex_lower(d.drop_last()) + seq![hex_digit(d.last() as int / 16), hex_digit(d.last() as int % 16)]
    }
}

/// The AES-256 key for a password: the lower-case hex text of the password's MD5.
pub open spec fn password_key(password: Seq<u8>) -> Seq<u8> {
    hex_lower(md5_digest(password))
}

fn hex_of(d: u8) -> (r: u8)
    requires
        d < 16,
    ensures
        r == hex_digit(d as int),
{
    if d < 10 { d + 48 } else { d - 10 + 97 }
}

proof fn lemma_hex_lower_len(d: Seq<u8>)
    ensures
        hex_lower(d).len() == 2 * d.len(),
    decreases d.len(),
{
    if d.len() > 0 {
        lemma_hex_lower_len(d.drop_last());
    }
}

/// The AES-256 key for a password: the 32 lower-case hex digits of its MD5.
pub fn password_to_key(password: &str) -> (r: [u8; 32])
    ensures
        r@ == password_key(password.spec_bytes()),
{
    let digest = md5_of(password.as_bytes());
    let mut key = [0u8; 32];
    let mut i: usize = 0;
    while i < 16
        invariant
            i <= 16,
            digest@.len() == 16,
            forall|k: int| 0 <= k < 2 * i ==> key@[k] == hex_lower(digest@.take(i as int))[k],
            hex_lower(digest@.take(i as int)).len() == 2 * i,
        decreases 16 - i,
    {
        let b = digest[i];
        let hi = hex_of(b / 16);
        let lo = hex_of(b % 16);
        proof {
            lemma_hex_lower_len(digest@.take(i as int));
            assert(digest@.take(i + 1).drop_last() =~= digest@.take(i as int));
            assert(digest@.take(i + 1).last() == b);
        }
        key[2 * i] = hi;
        key[2 * i + 1] = lo;
        i = i + 1;
    }
    assert(digest@.take(16) =~= digest@);
    assert(key@ =~= password_key(password.spec_bytes()));
    key
}

/// AES-256 in CFB mode, decrypting `data` with `key` and `iv` (`cfb_mode::Decryptor<aes::Aes256>`).
pub uninterp spec fn cfb_decrypt(key: Seq<u8>, iv: Seq<u8>, data: Seq<u8>) -> Seq<u8>;

/// Calls `cfb_mode::Decryptor::<aes::Aes256>::new(key, iv).decrypt(data)`, which decrypts in
/// place; the plaintext is named `cfb_decrypt`, and it has the length of the ciphertext.
#[verifier::external_body]
fn aes256_cfb_decrypt(key: &[u8; 32], iv: &[u8; 16], data: &mut Vec<u8>)
    ensures
        final(data)@ == cfb_decrypt(key@, iv@, old(data)@),
        final(data)@.len() == old(data)@.len(),
{
    cfb_mode::Decryptor::<aes::Aes256>::new(&(*key).into(), &(*iv).into()).decrypt(data.as_mut_slice());
}

/// The plaintext of a save under a candidate password, cut to the stored length.
pub open spec fn plaintext_for(enc_iv: Seq<u8>, ct: Seq<u8>, len: u64, password: Seq<u8>) -> Seq<u8> {
    let p = cfb_decrypt(password_key(password), enc_iv, ct);
    if (len as int) < p.len() { p.take(len as int) } else { p }
}

/// Tries a candidate password: the plaintext when its MD5 is the stored one, else `None`.
pub fn check_password(enc: &EncryptedFile, candidate: &str) -> (r: Option<Vec<u8>>)
    ensures
        ({
            let p = plaintext_for(enc.iv@, enc.ciphertext@, enc.original_length, candidate.spec_bytes());
            match r {
                Some(v) => v@ == p && md5_digest(p) == enc.expected_md5@,
                None => md5_digest(p) != enc.expected_md5@,
            }
        }),
{
    let key = password_to_key(candidate);
    let mut buffer = enc.ciphertext.clone();
    assert(buffer@ == enc.ciphertext@);
    aes256_cfb_decrypt(&key, &enc.iv, &mut buffer);
    if (enc.original_length as u128) < (buffer.len() as u128) {
        buffer.truncate(enc.original_length as usize);
    }
    let hash = md5_of(buffer.as_slice());
    let mut same = true;
    let mut i: usize = 0;
    while i < 16
        invariant
            i <= 16,
            hash@.len() == 16,
            enc.expected_md5@.len() == 16,
            same == (forall|k: int| 0 <= k < i ==> hash@[k] == enc.expected_md5@[k]),
        decreases 16 - i,
    {
        if hash[i] != enc.expected_md5[i] {
            same = false;
        }
        i = i + 1;
    }
    if same {
        assert(hash@ =~= enc.expected_md5@);
        Some(buffer)
    } else {
        None
    }
}

/// Standard Base64 decoding (`base64::engine::general_purpose::STANDARD.decode`); `None` where
/// the input is not valid Base64.
pub uninterp spec fn base64_decoded(data: Seq<u8>) -> Option<Seq<u8>>;

/// Calls `STANDARD.decode`; the result is named `base64_decoded`.
#[verifier::external_body]
fn base64_decode(data: &[u8]) -> (r: Result<Vec<u8>, base64::DecodeError>)
    ensures
        match r {
            Ok(v) => base64_decoded(data@) == Some(v@),
            Err(_) => base64_decoded(data@) is None,
        },
{
    base64::engine::general_purpose::STANDARD.decode(data)
}

/// Gzip decompression of bytes held in memory (`flate2::read::GzDecoder` read to the end);
/// `None` where the bytes are not a valid gzip stream.
pub uninterp spec fn gunzipped(data: Seq<u8>) -> Option<Seq<u8>>;

/// Reads a `flate2::read::GzDecoder` over `data` to the end; the result is named `gunzipped`.
#[verifier::external_body]
fn gunzip(data: &[u8]) -> (r: Result<Vec<u8>, std::io::Error>)
    ensures
        match r {
            Ok(v) => gunzipped(data@) == Some(v@),
            Err(_) => gunzipped(data@) is None,
        },
{
    let mut out = Vec::new();
    flate2::read::GzDecoder::new(data).read_to_end(&mut out).map(|_| out)
}

/// Why a plaintext could not be unpacked.
#[derive(Clone, Copy, Debug, PartialEq, Eq)]
pub enum PayloadError {
    /// The plaintext is not Base64.
    Base64,
    /// The decoded bytes are not a gzip stream.
    Gzip,
}

/// The save data inside a plaintext: Base64-decoded, then gunzipped.
pub open spec fn payload_of(plain: Seq<u8>) -> Result<Seq<u8>, PayloadError> {
    match base64_decoded(plain) {
        None => Err(PayloadError::Base64),
        Some(d) => match gunzipped(d) {
            None => Err(PayloadError::Gzip),
            Some(v) => Ok(v),
        },
    }
}

/// Unpacks the save data of a plaintext: Base64-decodes it, then gunzips it.
pub fn decode_payload(plain: &Vec<u8>) -> (r: Result<Vec<u8>, PayloadError>)
    ensures
        match r {
            Ok(v) => payload_of(plain@) == Ok::<Seq<u8>, PayloadError>(v@),
            Err(e) => payload_of(plain@) == Err::<Seq<u8>, PayloadError>(e),
        },
{
    let decoded = match base64_decode(plain.as_slice()) {
        Ok(d) => d,
        Err(_) => return Err(PayloadError::Base64),
    };
    match gunzip(decoded.as_slice()) {
        Ok(v) => Ok(v),
        Err(_) => Err(PayloadError::Gzip),
    }
}

} // verus!
