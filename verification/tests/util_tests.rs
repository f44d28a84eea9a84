use shield::util::{
    crc8_hash, generate_protected_path, guessed_as_protected, into_epoch, into_systime,
    parse_hex_pair, protected_path_from, try_into_epoch,
};
use std::time::{Duration, SystemTime, UNIX_EPOCH};

#[test]
fn signagture_check_test1() {
    let path = generate_protected_path();
    assert!(guessed_as_protected(&path));
}

#[test]
fn signagture_check_test2() {
    for _ in 0..256 {
        let path = generate_protected_path();
        assert!(guessed_as_protected(&path));
    }
}

#[test]
fn crc8_check_value() {
    assert_eq!(crc8_hash(b"123456789"), 0xa1);
    assert_eq!(crc8_hash(b""), 0x00);
}

#[test]
fn generated_path_shape() {
    let path = generate_protected_path();
    assert!(path.starts_with('/'));
    let dot = path.rfind('.').unwrap();
    let ext = &path[dot + 1..];
    assert!(!ext.is_empty());
    assert!(ext.chars().all(|c| c.is_ascii_lowercase()));
    let sig = &path[dot - 2..dot];
    let expected = format!("{:0>2x}", crc8_hash(path[..dot - 2].as_bytes()));
    assert_eq!(sig, expected);
}

#[test]
fn guessed_accepts_signed_path() {
    let body = "/abc";
    let sig = format!("{:0>2x}", crc8_hash(body.as_bytes()));
    let path = format!("{}{}.pdf", body, sig);
    assert!(guessed_as_protected(&path));
    let upper = format!("{}{}.pdf", body, sig.to_uppercase());
    assert!(guessed_as_protected(&upper));
}

#[test]
fn guessed_rejects_bad_signatures() {
    assert!(!guessed_as_protected("/no-extension"));
    assert!(!guessed_as_protected("ab.pdf"));
    assert!(!guessed_as_protected("/abczz.pdf"));
    let body = "/abc";
    let sig = crc8_hash(body.as_bytes()).wrapping_add(1);
    let path = format!("{}{:0>2x}.pdf", body, sig);
    assert!(!guessed_as_protected(&path));
}

#[test]
fn guessed_uses_last_dot() {
    let body = "/a.b";
    let sig = format!("{:0>2x}", crc8_hash(body.as_bytes()));
    let path = format!("{}{}.x.y", body, sig);
    assert!(!guessed_as_protected(&path));
    let path = format!("{}{}.xy", body, sig);
    assert!(guessed_as_protected(&path));
}

#[test]
fn hex_pair_reads_like_from_str_radix() {
    assert_eq!(parse_hex_pair(b'a', b'1'), Some(0xa1));
    assert_eq!(parse_hex_pair(b'F', b'f'), Some(0xff));
    assert_eq!(parse_hex_pair(b'+', b'f'), Some(0x0f));
    assert_eq!(parse_hex_pair(b'-', b'1'), None);
    assert_eq!(parse_hex_pair(b'g', b'0'), None);
    assert_eq!(parse_hex_pair(b'+', b'+'), None);
    for a in 0u8..=255 {
        for b in [b'0', b'9', b'a', b'F', b'+'] {
            let text = [a, b];
            let expected = std::str::from_utf8(&text)
                .ok()
                .and_then(|s| u8::from_str_radix(s, 16).ok());
            assert_eq!(parse_hex_pair(a, b), expected);
        }
    }
}

#[test]
fn epoch_round_trip() {
    let t = into_systime(1_700_000_000_123).unwrap();
    assert_eq!(into_epoch(t), 1_700_000_000_123);
    assert_eq!(t, UNIX_EPOCH + Duration::from_millis(1_700_000_000_123));
    assert_eq!(into_epoch(UNIX_EPOCH + Duration::from_micros(2_500)), 2);
    assert_eq!(try_into_epoch(UNIX_EPOCH - Duration::from_secs(1)), None);
    assert_eq!(try_into_epoch(UNIX_EPOCH), Some(0));
    assert_eq!(into_systime(5), Some(UNIX_EPOCH + Duration::from_millis(5)));
    let now = SystemTime::now();
    assert!(into_epoch(now) > 0);
}

#[test]
fn epoch_truncation() {
    let t = UNIX_EPOCH + Duration::from_nanos(1_700_000_000_123_987_654);
    let r = into_systime(into_epoch(t)).unwrap();
    assert!(r <= t);
    assert!(t.duration_since(r).unwrap() < Duration::from_millis(1));
    assert_eq!(t.duration_since(r).unwrap(), Duration::from_nanos(987_654));
}

#[test]
fn protected_path_from_parts() {
    let path = protected_path_from("abc", "pdf");
    let sig = format!("{:0>2x}", crc8_hash(b"/abc"));
    assert_eq!(path, format!("/abc{}.pdf", sig));
    assert!(guessed_as_protected(&path));
    let path = protected_path_from("caf\u{e9}", "x");
    let sig = format!("{:0>2x}", crc8_hash("/caf\u{e9}".as_bytes()));
    assert_eq!(path, format!("/caf\u{e9}{}.x", sig));
    assert!(guessed_as_protected(&path));
}

#[test]
fn any_signed_text_is_recognized() {
    for text in ["a", "/some/where", "x.y.z", "\u{e9}t\u{e9}"] {
        let sum = crc8_hash(text.as_bytes());
        for ext in ["", "html", "tar_gz"] {
            assert!(guessed_as_protected(&format!("{}{:02x}.{}", text, sum, ext)));
            assert!(guessed_as_protected(&format!("{}{:02X}.{}", text, sum, ext)));
        }
    }
}
