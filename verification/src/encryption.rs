//! A light obfuscation of payloads: each byte is xored with a one-byte key,
//! the key is put in front, and the whole is written in base64.
use vstd::prelude::*;
use vstd::string::StringSliceAdditionalSpecFns;
use vstd::utf8::*;

use crate::util::ascii_bytes;

verus! {

broadcast use vstd::string::group_string_axioms;

#[verifier::external_type_specification]
#[verifier::external_body]
pub struct ExDecodeError(base64::DecodeError);

#[verifier::external_type_specification]
#[verifier::external_body]
pub struct ExJsonError(serde_json::Error);

/// Why an obfuscated payload could not be read or written.
pub enum EncryptionError {
    /// The text is not base64.
    Base64Error(base64::DecodeError),
    /// The payload is not the JSON that was expected.
    JsonError(serde_json::Error),
    /// The decoded bytes are too short to hold a key and a payload.
    BadFormatError,
}

/// A symbol of the standard base64 alphabet, or the padding `=`.
pub open spec fn is_base64_symbol(c: char) -> bool {
    ('A' <= c <= 'Z') || ('a' <= c <= 'z') || ('0' <= c <= '9') || c == '+' || c == '/' || c
        == '='
}

/// The padded standard base64 text of `data`, as `base64::encode` writes it.
pub uninterp spec fn base64_encoded(data: Seq<u8>) -> Seq<char>;

/// What `base64::decode` gives for `input`: the bytes it reads, or the error
/// it reports.
pub uninterp spec fn base64_decoded(input: Seq<u8>) -> Result<Seq<u8>, base64::DecodeError>;

/// `base64::encode` (standard alphabet, padded). Claimed: the result is the
/// text named `base64_encoded` of the bytes; it is made of symbols of the
/// standard alphabet and `=`, four for each started group of three bytes.
/// The encoding itself is not written out here. It panics where that length
/// overflows `usize`, which `requires` rules out.
#[verifier::external_body]
fn base64_encode(data: &[u8]) -> (r: String)
    requires
        4 * ((data@.len() + 2) / 3) <= usize::MAX,
    ensures
        r@ == base64_encoded(data@),
        forall|i: int| 0 <= i < r@.len() ==> is_base64_symbol(#[trigger] r@[i]),
        r@.len() == 4 * ((data@.len() + 2) / 3),
{
    base64::encode(data)
}

/// `base64::decode` (standard alphabet). Claimed: its bytes or its error are
/// those named `base64_decoded`, and it reads back what `base64::encode`
/// wrote. Which inputs it refuses, and with which error, is not written out.
#[verifier::external_body]
fn base64_decode(input: &[u8]) -> (r: Result<Vec<u8>, base64::DecodeError>)
    ensures
        r is Ok <==> base64_decoded(input@) is Ok,
        r matches Ok(v) ==> (base64_decoded(input@) matches Ok(w) && w == v@),
        r matches Err(e) ==> (base64_decoded(input@) matches Err(x) && x == e),
        r is Err ==> forall|d: Seq<u8>| input@ != ascii_bytes(#[trigger] base64_encoded(d)),
        r matches Ok(v) ==> forall|d: Seq<u8>|
            input@ == ascii_bytes(#[trigger] base64_encoded(d)) ==> v@ == d,
{
    base64::decode(input)
}

/// `rand::random::<u8>()`: a byte from the thread-local generator. Nothing
/// is claimed of its value.
#[verifier::external_body]
fn random_byte() -> u8 {
    rand::random::<u8>()
}

/// The key followed by each byte of `data` xored with it.
pub open spec fn xor_frame(data: Seq<u8>, key: u8) -> Seq<u8> {
    seq![key] + Seq::new(data.len(), |i: int| data[i] ^ key)
}

/// The bytes after the first, each xored with the first.
pub open spec fn xor_unframe(frame: Seq<u8>) -> Seq<u8> {
    Seq::new((frame.len() - 1) as nat, |i: int| frame[i + 1] ^ frame[0])
}

/// What `decode_xor` returns for `input`: an error where base64 decoding
/// fails or leaves fewer than three bytes, else the unframed payload.
pub open spec fn decode_xor_spec(input: Seq<u8>) -> Option<Seq<u8>> {
    match base64_decoded(input) {
        Err(_) => None,
        Ok(f) => if f.len() < 3 {
            None
        } else {
            Some(xor_unframe(f))
        },
    }
}

/// The frame, byte by byte: the key first, then byte `i` of the payload
/// xored with the key at position `i + 1`, for every `i`.
pub proof fn lemma_xor_frame_bytes(data: Seq<u8>, key: u8)
    ensures
        xor_frame(data, key).len() == data.len() + 1,
        xor_frame(data, key)[0] == key,
        forall|i: int| 0 <= i < data.len() ==> xor_frame(data, key)[i + 1] == #[trigger] data[i] ^ key,
{
}

/// Unframing, byte by byte: one byte fewer than the frame, and byte `i` of
/// the payload is byte `i + 1` of the frame xored with its first byte, for
/// every `i`.
pub proof fn lemma_xor_unframe_bytes(frame: Seq<u8>)
    requires
        frame.len() >= 1,
    ensures
        xor_unframe(frame).len() == frame.len() - 1,
        forall|i: int|
            0 <= i < frame.len() - 1 ==> #[trigger] xor_unframe(frame)[i] == frame[i + 1] ^ frame[0],
{
}

/// Unframing a frame gives back the payload.
pub proof fn lemma_xor_unframe_frame(data: Seq<u8>, key: u8)
    ensures
        xor_unframe(xor_frame(data, key)) =~= data,
{
    assert forall|i: int| 0 <= i < data.len() implies #[trigger] xor_unframe(
        xor_frame(data, key),
    )[i] == data[i] by {
        let x = data[i];
        assert((x ^ key) ^ key == x) by (bit_vector);
    }
}

/// The base64 text of the frame of `data` under `key`.
pub fn encode_xor_with_key(data: &[u8], key: u8) -> (r: String)
    requires
        4 * ((data@.len() + 3) / 3) <= usize::MAX,
    ensures
        r@ == base64_encoded(xor_frame(data@, key)),
        exists|f: Seq<u8>|
            #![trigger base64_encoded(f)]
            r@ == base64_encoded(f) && f.len() == data@.len() + 1 && f[0] == key && forall|i: int|
                0 <= i < data@.len() ==> f[i + 1] == #[trigger] data@[i] ^ key,
        forall|i: int| 0 <= i < r@.len() ==> is_base64_symbol(#[trigger] r@[i]),
        encode_utf8(r@) == ascii_bytes(r@),
        r@.len() == 4 * ((data@.len() + 3) / 3),
{
    let mut result: Vec<u8> = Vec::new();
    result.push(key);
    for i in 0..data.len()
        invariant
            result@ =~= xor_frame(data@.subrange(0, i as int), key),
    {
        result.push(data[i] ^ key);
        assert(result@ =~= xor_frame(data@.subrange(0, i + 1), key));
    }
    assert(data@.subrange(0, data@.len() as int) =~= data@);
    let r = base64_encode(result.as_slice());
    proof {
        lemma_base64_text_bytes(r@);
        lemma_xor_frame_bytes(data@, key);
    }
    r
}

/// Obfuscates `data` under the key that the random byte `b` gives: `b` taken
/// modulo 255.
pub fn encode_xor_from_byte(data: &[u8], b: u8) -> (r: String)
    requires
        4 * ((data@.len() + 3) / 3) <= usize::MAX,
    ensures
        r@ == base64_encoded(xor_frame(data@, (b % 255) as u8)),
        encode_utf8(r@) == ascii_bytes(r@),
        r@.len() == 4 * ((data@.len() + 3) / 3),
{
    encode_xor_with_key(data, b % 255)
}

/// Obfuscates `data` under a fresh random key below 255.
pub fn encode_xor(data: &[u8]) -> (r: Result<String, EncryptionError>)
    requires
        4 * ((data@.len() + 3) / 3) <= usize::MAX,
    ensures
        r matches Ok(s) && exists|key: u8|
            key < 255 && s@ == base64_encoded(#[trigger] xor_frame(data@, key)),
        r matches Ok(s) ==> encode_utf8(s@) == ascii_bytes(s@),
        r matches Ok(s) ==> s@.len() == 4 * ((data@.len() + 3) / 3),
{
    let b = random_byte();
    let s = encode_xor_from_byte(data, b);
    assert(s@ == base64_encoded(xor_frame(data@, (b % 255) as u8)));
    Ok(s)
}

/// Reads back a payload written by `encode_xor`.
pub fn decode_xor(data: &[u8]) -> (r: Result<Vec<u8>, EncryptionError>)
    ensures
        match base64_decoded(data@) {
            Err(e) => (r matches Err(EncryptionError::Base64Error(x)) && x == e),
            Ok(f) => if f.len() < 3 {
                r matches Err(EncryptionError::BadFormatError)
            } else {
                r matches Ok(v) && v@ == xor_unframe(f)
            },
        },
        r matches Ok(v) ==> (base64_decoded(data@) matches Ok(f) && v@.len() == f.len() - 1
            && forall|i: int| 0 <= i < v@.len() ==> #[trigger] v@[i] == f[i + 1] ^ f[0]),
        forall|d: Seq<u8>, key: u8|
            data@ == ascii_bytes(#[trigger] base64_encoded(xor_frame(d, key))) && d.len() >= 2
                ==> (r matches Ok(v) && v@ == d),
        forall|d: Seq<u8>, key: u8|
            data@ == ascii_bytes(#[trigger] base64_encoded(xor_frame(d, key))) && d.len() < 2
                ==> (r matches Err(EncryptionError::BadFormatError)),
{
    let decoded = match base64_decode(data) {
        Ok(v) => v,
        Err(e) => return Err(EncryptionError::Base64Error(e)),
    };
    if decoded.len() < 3 {
        return Err(EncryptionError::BadFormatError);
    }
    proof {
        assert forall|d: Seq<u8>, k: u8|
            data@ == ascii_bytes(#[trigger] base64_encoded(xor_frame(d, k))) implies d.len()
                >= 2 by {
            assert(decoded@ == xor_frame(d, k));
        }
    }
    let key = decoded[0];
    let mut out: Vec<u8> = Vec::new();
    let mut i: usize = 1;
    while i < decoded.len()
        invariant
            1 <= i <= decoded@.len(),
            key == decoded@[0],
            out@ =~= Seq::new((i - 1) as nat, |j: int| decoded@[j + 1] ^ decoded@[0]),
        decreases decoded@.len() - i,
    {
        out.push(decoded[i] ^ key);
        i = i + 1;
    }
    proof {
        lemma_xor_unframe_bytes(decoded@);
        assert forall|d: Seq<u8>, k: u8|
            data@ == ascii_bytes(#[trigger] base64_encoded(xor_frame(d, k))) && d.len()
                >= 2 implies out@ == d by {
            lemma_xor_unframe_frame(d, k);
            assert(decoded@ == xor_frame(d, k));
        }
    }
    Ok(out)
}

/// The bytes of base64 text are its characters.
pub proof fn lemma_base64_text_bytes(s: Seq<char>)
    requires
        forall|i: int| 0 <= i < s.len() ==> is_base64_symbol(#[trigger] s[i]),
    ensures
        encode_utf8(s) == ascii_bytes(s),
{
    assert(is_ascii_chars(s));
    is_ascii_chars_encode_utf8(s);
    assert(encode_utf8(s) =~= ascii_bytes(s));
}

} // verus!
