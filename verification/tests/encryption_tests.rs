use shield::encryption::{
    decode_xor, encode_xor, encode_xor_from_byte, encode_xor_with_key, EncryptionError,
};

#[test]
fn encode_with_known_key() {
    assert_eq!(encode_xor_with_key(&[1, 2], 0), "AAEC");
    assert_eq!(encode_xor_with_key(&[1, 2], 1), "AQAD");
    assert_eq!(encode_xor_with_key(b"hi", 0x20), "IEhJ");
}

#[test]
fn round_trip() {
    let data = b"{\"hello\":\"world\"}";
    let encoded = encode_xor(data).ok().unwrap();
    let decoded = decode_xor(encoded.as_bytes()).ok().unwrap();
    assert_eq!(decoded, data.to_vec());
}

#[test]
fn round_trip_every_key() {
    for key in 0u8..255 {
        let encoded = encode_xor_with_key(b"payload", key);
        assert_eq!(decode_xor(encoded.as_bytes()).ok().unwrap(), b"payload".to_vec());
    }
}

#[test]
fn encoded_key_is_below_255() {
    for _ in 0..64 {
        let encoded = encode_xor(b"ab").ok().unwrap();
        let raw = base64::decode(&encoded).unwrap();
        assert!(raw[0] < 255);
        assert_eq!(raw.len(), 3);
    }
}

#[test]
fn decode_errors() {
    assert!(matches!(decode_xor(b"!!!!"), Err(EncryptionError::Base64Error(_))));
    // one byte of payload: key and payload fit in two bytes only
    let short = encode_xor_with_key(b"a", 7);
    assert!(matches!(decode_xor(short.as_bytes()), Err(EncryptionError::BadFormatError)));
    assert!(matches!(decode_xor(b""), Err(EncryptionError::BadFormatError)));
}

#[test]
fn key_from_random_byte() {
    assert_eq!(encode_xor_from_byte(&[1, 2], 255), "AAEC");
    assert_eq!(encode_xor_from_byte(&[1, 2], 1), "AQAD");
    assert_eq!(encode_xor_from_byte(&[1, 2], 0), "AAEC");
}

#[test]
fn short_payloads_do_not_survive() {
    for data in [&b""[..], &b"z"[..]] {
        let encoded = encode_xor(data).ok().unwrap();
        assert!(matches!(
            decode_xor(encoded.as_bytes()),
            Err(EncryptionError::BadFormatError)
        ));
    }
}

#[test]
fn base64_error_is_the_decoders() {
    for input in [&b"!!!!"[..], &b"a"[..], &b"ab=c"[..]] {
        match decode_xor(input) {
            Err(EncryptionError::Base64Error(e)) => {
                assert_eq!(e, base64::decode(input).unwrap_err())
            }
            _ => panic!("expected a base64 error"),
        }
    }
}

#[test]
fn encoded_length() {
    for n in 0..10usize {
        let data = vec![7u8; n];
        let s = encode_xor(&data).ok().unwrap();
        assert_eq!(s.len(), 4 * ((n + 3) / 3));
    }
}
