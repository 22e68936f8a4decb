//! One log line in storage form: plain UTF-8, or AES-128-ECB ciphertext
//! written as lowercase hexadecimal, under a key derived from the
//! application key by MD5.
use vstd::prelude::*;
use vstd::utf8::{decode_utf8, encode_utf8, is_ascii_chars, valid_utf8};

use aes::Aes128;
use block_modes::block_padding::Pkcs7;
use block_modes::{BlockMode, Ecb};

verus! {

broadcast use vstd::utf8::group_utf8_lib;

/// Why a stored line could not be turned back into text.
#[derive(Clone, Copy, Debug, PartialEq, Eq, Structural)]
pub enum CodecError {
    /// The text is not an even number of hexadecimal digits.
    InvalidHex,
    /// The cipher refused the key or the ciphertext.
    Cipher,
    /// The decrypted bytes are not UTF-8.
    InvalidUtf8,
}

/// The MD5 digest of `data`.
pub uninterp spec fn md5_of(data: Seq<u8>) -> Seq<u8>;

/// AES-128 in ECB mode with PKCS#7 padding: the ciphertext of `plain`.
pub uninterp spec fn ecb_encrypted(key: Seq<u8>, plain: Seq<u8>) -> Seq<u8>;

/// AES-128 in ECB mode with PKCS#7 padding: the plaintext of `cipher`, if
/// its length and padding are valid.
pub uninterp spec fn ecb_decrypted(key: Seq<u8>, cipher: Seq<u8>) -> Option<Seq<u8>>;

/// The lowercase hexadecimal digit for `n < 16`.
pub open spec fn hex_digit(n: int) -> char {
    seq!['0', '1', '2', '3', '4', '5', '6', '7', '8', '9', 'a', 'b', 'c', 'd', 'e', 'f'][n]
}

/// Two lowercase hexadecimal digits per byte, high nibble first.
pub open spec fn hex_text(b: Seq<u8>) -> Seq<char> {
    Seq::new(
        2 * b.len(),
        |i: int|
            if i % 2 == 0 {
                hex_digit(b[i / 2] as int / 16)
            } else {
                hex_digit(b[i / 2] as int % 16)
            },
    )
}

/// The value of one hexadecimal digit, upper or lower case.
pub open spec fn hex_value(c: u8) -> Option<int> {
    if 48 <= c <= 57 {
        Some(c - 48)
    } else if 97 <= c <= 102 {
        Some(c - 87)
    } else if 65 <= c <= 70 {
        Some(c - 55)
    } else {
        None
    }
}

/// The bytes that a string of hexadecimal digits spells, or `None` when its
/// length is odd or it holds another character.
pub open spec fn hex_parsed(s: Seq<u8>) -> Option<Seq<u8>> {
    if s.len() % 2 == 0 && forall|i: int| 0 <= i < s.len() ==> #[trigger] hex_value(s[i]) is Some {
        Some(
            Seq::new(
                s.len() / 2,
                |j: int| (hex_value(s[2 * j])->0 * 16 + hex_value(s[2 * j + 1])->0) as u8,
            ),
        )
    } else {
        None
    }
}

/// The cipher key of an application key: the MD5 digest of its UTF-8 bytes.
pub open spec fn line_key(app_key: Seq<char>) -> Seq<u8> {
    md5_of(encode_utf8(app_key))
}

/// The storage form of `plain` in encrypted mode.
pub open spec fn encrypted_line(app_key: Seq<char>, plain: Seq<char>) -> Seq<char> {
    hex_text(ecb_encrypted(line_key(app_key), encode_utf8(plain)))
}

/// The text that an encrypted line holds, or why there is none.
pub open spec fn decrypted_line(app_key: Seq<char>, text: Seq<char>) -> Result<Seq<char>, CodecError> {
    match hex_parsed(encode_utf8(text)) {
        None => Err(CodecError::InvalidHex),
        Some(c) => match ecb_decrypted(line_key(app_key), c) {
            None => Err(CodecError::Cipher),
            Some(p) => if valid_utf8(p) {
                Ok(decode_utf8(p))
            } else {
                Err(CodecError::InvalidUtf8)
            },
        },
    }
}

/// The text of stored bytes: their UTF-8 decoding, or empty when they are
/// not UTF-8.
pub open spec fn utf8_or_empty(b: Seq<u8>) -> Seq<char> {
    if valid_utf8(b) {
        decode_utf8(b)
    } else {
        Seq::empty()
    }
}

/// Relies on md5::compute: the 16-byte MD5 digest of the bytes.
#[verifier::external_body]
fn md5_digest(data: &[u8]) -> (r: [u8; 16])
    ensures
        r@ == md5_of(data@),
{
    md5::compute(data).0
}

/// Relies on block_modes' `Ecb<Aes128, Pkcs7>`: `new_from_slices` accepts
/// any 16-byte key (ECB ignores the IV), and `encrypt_vec` pads with PKCS#7,
/// always adding 1 to 16 bytes, so the result has `(n / 16 + 1) * 16` bytes.
#[verifier::external_body]
fn ecb_encrypt(key: &[u8; 16], plain: &[u8]) -> (r: Option<Vec<u8>>)
    ensures
        r is Some,
        r matches Some(c) ==> c@ == ecb_encrypted(key@, plain@) && c@.len() == (plain@.len() / 16
            + 1) * 16,
{
    let cipher = Ecb::<Aes128, Pkcs7>::new_from_slices(key, &[]).ok()?;
    Some(cipher.encrypt_vec(plain))
}

/// Relies on block_modes' `Ecb<Aes128, Pkcs7>::decrypt_vec`: it undoes
/// `encrypt_vec` under the same key, and fails on an input that is empty or
/// whose length is not a multiple of 16.
#[verifier::external_body]
fn ecb_decrypt(key: &[u8; 16], cipher: &[u8]) -> (r: Option<Vec<u8>>)
    ensures
        r is Some ==> ecb_decrypted(key@, cipher@) == Some(r->0@),
        r is None ==> ecb_decrypted(key@, cipher@) is None,
        forall|p: Seq<u8>| cipher@ == #[trigger] ecb_encrypted(key@, p) ==> r is Some && r->0@ == p,
        cipher@.len() % 16 != 0 || cipher@.len() == 0 ==> r is None,
{
    let mode = Ecb::<Aes128, Pkcs7>::new_from_slices(key, &[]).ok()?;
    mode.decrypt_vec(cipher).ok()
}

/// Relies on hex::encode: two lowercase digits per byte, high nibble first.
#[verifier::external_body]
fn hex_encode(data: &[u8]) -> (r: String)
    ensures
        r@ == hex_text(data@),
{
    hex::encode(data)
}

/// Relies on hex::decode: it fails on an odd length or a non-hexadecimal
/// character, and otherwise reads each pair of digits as one byte.
#[verifier::external_body]
fn hex_decode(text: &str) -> (r: Option<Vec<u8>>)
    ensures
        r is Some ==> hex_parsed(encode_utf8(text@)) == Some(r->0@),
        r is None ==> hex_parsed(encode_utf8(text@)) is None,
{
    hex::decode(text).ok()
}

/// Relies on String::from_utf8: it succeeds exactly on valid UTF-8, with the
/// text that the bytes encode.
#[verifier::external_body]
pub(crate) fn utf8_text(bytes: Vec<u8>) -> (r: Option<String>)
    ensures
        r is Some <==> valid_utf8(bytes@),
        r is Some ==> r->0@ == decode_utf8(bytes@),
{
    String::from_utf8(bytes).ok()
}

proof fn lemma_hex_digit(n: int)
    requires
        0 <= n < 16,
    ensures
        '\0' <= hex_digit(n) <= '\u{7f}',
        hex_value(hex_digit(n) as u8) == Some(n),
{
    assert(n == 0 || n == 1 || n == 2 || n == 3 || n == 4 || n == 5 || n == 6 || n == 7 || n == 8
        || n == 9 || n == 10 || n == 11 || n == 12 || n == 13 || n == 14 || n == 15);
}

/// Hexadecimal text is ASCII, and reading it back gives the bytes written.
pub proof fn lemma_hex_round_trip(b: Seq<u8>)
    ensures
        is_ascii_chars(hex_text(b)),
        hex_parsed(encode_utf8(hex_text(b))) == Some(b),
{
    let t = hex_text(b);
    assert forall|i: int| 0 <= i < t.len() implies '\0' <= #[trigger] t[i] <= '\u{7f}'
        && hex_value(t[i] as u8) == Some(if i % 2 == 0 { b[i / 2] as int / 16 } else { b[i / 2] as int % 16 }) by {
        if i % 2 == 0 {
            lemma_hex_digit(b[i / 2] as int / 16);
        } else {
            lemma_hex_digit(b[i / 2] as int % 16);
        }
    }
    assert(is_ascii_chars(t));
    let e = encode_utf8(t);
    assert(e.len() == t.len());
    assert forall|i: int| 0 <= i < e.len() implies #[trigger] hex_value(e[i]) is Some by {
        assert(t[i] as u8 == e[i]);
    }
    let parsed = Seq::new(
        e.len() / 2,
        |j: int| (hex_value(e[2 * j])->0 * 16 + hex_value(e[2 * j + 1])->0) as u8,
    );
    assert forall|j: int| 0 <= j < b.len() implies #[trigger] parsed[j] == b[j] by {
        assert(t[2 * j] as u8 == e[2 * j]);
        assert(t[2 * j + 1] as u8 == e[2 * j + 1]);
        assert((2 * j) % 2 == 0 && (2 * j) / 2 == j);
        assert((2 * j + 1) % 2 == 1 && (2 * j + 1) / 2 == j);
    }
    assert(parsed =~= b);
}

/// A UTF-8 encoding has at least one byte per character.
pub proof fn lemma_encode_utf8_len(s: Seq<char>)
    ensures
        encode_utf8(s).len() >= s.len(),
    decreases s.len(),
{
    if s.len() > 0 {
        lemma_encode_utf8_len(s.drop_first());
    }
}

/// The cipher key of an application key: the 16-byte MD5 digest of its
/// UTF-8 bytes.
pub fn generate_key(app_key: &str) -> (r: [u8; 16])
    ensures
        r@ == line_key(app_key@),
{
    md5_digest(app_key.as_bytes())
}

/// Encrypts one line: AES-128-ECB under the derived key, as lowercase
/// hexadecimal. The result is always longer than the input, so it never
/// equals it.
pub fn encrypt_line(app_key: &str, plain: &str) -> (r: Result<String, CodecError>)
    ensures
        r matches Ok(s) && s@ == encrypted_line(app_key@, plain@),
        r matches Ok(s) && s@.len() > plain@.len(),
{
    let key = generate_key(app_key);
    match ecb_encrypt(&key, plain.as_bytes()) {
        Some(c) => {
            let text = hex_encode(c.as_slice());
            proof {
                lemma_encode_utf8_len(plain@);
            }
            Ok(text)
        },
        None => Err(CodecError::Cipher),
    }
}

/// Decrypts one line written by [`encrypt_line`] under the same key.
pub fn decrypt_line(app_key: &str, text: &str) -> (r: Result<String, CodecError>)
    ensures
        r is Ok ==> decrypted_line(app_key@, text@) == Ok::<Seq<char>, CodecError>(r->Ok_0@),
        r is Err ==> decrypted_line(app_key@, text@) == Err::<Seq<char>, CodecError>(r->Err_0),
        forall|p: Seq<char>|
            #![trigger encrypted_line(app_key@, p)]
            text@ == encrypted_line(app_key@, p) ==> (r matches Ok(s) && s@ == p),
{
    let key = generate_key(app_key);
    match hex_decode(text) {
        None => {
            proof {
                assert forall|p: Seq<char>| #![trigger encrypted_line(app_key@, p)]
                    text@ == encrypted_line(app_key@, p) implies false by {
                    lemma_hex_round_trip(ecb_encrypted(key@, encode_utf8(p)));
                }
            }
            Err(CodecError::InvalidHex)
        },
        Some(c) => {
            proof {
                assert forall|p: Seq<char>| #![trigger encrypted_line(app_key@, p)]
                    text@ == encrypted_line(app_key@, p) implies c@ == ecb_encrypted(
                    key@,
                    encode_utf8(p),
                ) by {
                    lemma_hex_round_trip(ecb_encrypted(key@, encode_utf8(p)));
                }
            }
            match ecb_decrypt(&key, c.as_slice()) {
                None => Err(CodecError::Cipher),
                Some(p) => match utf8_text(p) {
                    Some(s) => Ok(s),
                    None => Err(CodecError::InvalidUtf8),
                },
            }
        },
    }
}

} // verus!
