use http::Uri;
use shield::proxy::{dispatch, proxy_target, ModifyStrategy};
use shield::service::{cache_key_for, plan_protect, plan_protect_once, resolve_record, Storage};
use shield::util::{crc8_hash, guessed_as_protected};
use std::time::UNIX_EPOCH;

fn uri() -> Uri {
    Uri::from_static("http://example.com/ad.js")
}

#[test]
fn resolve_live_record() {
    let record = Storage::ProtectedUrl { uri: uri(), expire_at: Some(2_000) };
    let r = resolve_record(Some(record), 1_500_000_000).unwrap();
    assert_eq!(r.uri(), &uri());
    assert_eq!(r.ttl(), Some(500_000_000));
}

#[test]
fn resolve_record_expiring_now() {
    let record = Storage::ProtectedUrl { uri: uri(), expire_at: Some(2_000) };
    let r = resolve_record(Some(record), 2_000_000_000).unwrap();
    assert_eq!(r.ttl(), Some(0));
}

#[test]
fn resolve_expired_record() {
    let record = Storage::ProtectedUrl { uri: uri(), expire_at: Some(2_000) };
    assert!(resolve_record(Some(record), 2_000_000_001).is_none());
}

#[test]
fn resolve_lasting_record() {
    let record = Storage::ProtectedUrl { uri: uri(), expire_at: None };
    let r = resolve_record(Some(record), u128::MAX).unwrap();
    assert_eq!(r.ttl(), None);
}

#[test]
fn resolve_other_records() {
    assert!(resolve_record(None, 0).is_none());
    assert!(resolve_record(Some(Storage::OptOut { expire_at: UNIX_EPOCH }), 0).is_none());
}

#[test]
fn protect_plans() {
    let plan = plan_protect(uri(), 10_000_000_000, 3_000_999_999);
    assert!(guessed_as_protected(&plan.key));
    assert_eq!(plan.keep_for, 6_001_999_998);
    match plan.record {
        Storage::ProtectedUrl { uri: u, expire_at } => {
            assert_eq!(u, uri());
            assert_eq!(expire_at, Some(13_000));
        }
        _ => panic!("unexpected record"),
    }
    let once = plan_protect_once(uri());
    assert!(guessed_as_protected(&once.key));
    assert_eq!(once.keep_for, 900_000_000_000);
    assert!(matches!(once.record, Storage::ProtectedUrl { expire_at: None, .. }));
}

#[test]
fn proxy_targets() {
    assert_eq!(proxy_target(Some("/a?b=1"), "/a"), "http://127.0.0.1:3000/a?b=1");
    assert_eq!(proxy_target(None, "/a"), "http://127.0.0.1:3000/a");
    assert!(dispatch() == ModifyStrategy::Identity);
}

#[test]
fn protected_record_resolves_until_it_expires() {
    let now: u128 = 1_700_000_000_123_456_789;
    let ttl: u128 = 30_000_000_000;
    let plan = plan_protect(uri(), now, ttl);
    let found = resolve_record(Some(plan.record), now).unwrap();
    let left = found.ttl().unwrap();
    assert!(left <= ttl && left > ttl - 1_000_000);
    assert_eq!(left, 29_999_543_211);
    let plan = plan_protect(uri(), now, ttl);
    assert!(resolve_record(Some(plan.record), now + ttl + 1).is_none());
}

#[test]
fn cache_keys_only_for_signed_paths() {
    let sig = format!("{:0>2x}", crc8_hash(b"/abc"));
    let signed: Uri = format!("http://example.com/abc{}.pdf?x=1", sig).parse().unwrap();
    assert_eq!(cache_key_for(&signed), Some(format!("/abc{}.pdf", sig).as_str()));
    let unsigned: Uri = "http://example.com/abc00.pdf".parse().unwrap();
    let expected = if sig == "00" { Some("/abc00.pdf") } else { None };
    assert_eq!(cache_key_for(&unsigned), expected);
    let no_path: Uri = "http://example.com".parse().unwrap();
    assert_eq!(cache_key_for(&no_path), None);
}
