//! The records that the shield keeps in its cache, and the decisions taken on
//! them: what a lookup of a protected path answers, and what protecting a URL
//! stores. Times are nanoseconds or milliseconds since the Unix epoch.
use http::Uri;
use std::time::SystemTime;
use vstd::prelude::*;

use crate::random::{extension_pool, is_random_path};
use crate::util::{
    ascii_bytes, generate_protected_path, guessed_as_protected, lemma_ascii_signature_boundary,
    protected_path_for, spec_guessed_as_protected,
};

verus! {

#[verifier::external_type_specification]
#[verifier::external_body]
pub struct ExUri(Uri);

/// The path of a URI, as `Uri::path` gives it.
pub uninterp spec fn uri_path_text(u: Uri) -> Seq<char>;

/// `Uri::path`. Claimed: the path named `uri_path_text`, and it is ASCII, as
/// the source shows: a path is parsed byte by byte and any byte outside a set
/// of visible ASCII characters is refused.
#[verifier::external_body]
fn uri_path(u: &Uri) -> (r: &str)
    ensures
        r@ == uri_path_text(*u),
        vstd::utf8::is_ascii_chars(r@),
{
    u.path()
}

/// The key under which a request for `uri` is looked up: its path, where the
/// path carries a valid signature; `None` where it does not, and the cache is
/// not asked.
pub fn cache_key_for(uri: &Uri) -> (r: Option<&str>)
    ensures
        r is Some <==> spec_guessed_as_protected(ascii_bytes(uri_path_text(*uri))),
        r matches Some(k) ==> k@ == uri_path_text(*uri),
{
    let path = uri_path(uri);
    proof {
        lemma_ascii_signature_boundary(path@);
    }
    if guessed_as_protected(path) {
        Some(path)
    } else {
        None
    }
}

/// What the cache holds under a key.
pub enum Storage {
    /// A protected path stands for `uri` until `expire_at` (milliseconds since
    /// the epoch), or for good.
    ProtectedUrl { uri: Uri, expire_at: Option<u64> },
    /// A user that opted out, until `expire_at`.
    OptOut { expire_at: SystemTime },
}

/// How long a protection lasts.
pub enum ProtectPolicy {
    /// Until the given time.
    Timed(SystemTime),
    /// For one use.
    ProtectOnce,
}

/// The answer to a lookup of a protected path: the URL it stands for, and
/// how long the protection still lasts, in nanoseconds.
pub struct CacheResult {
    uri: Uri,
    ttl: Option<u128>,
}

impl CacheResult {
    /// The URL that the path stands for.
    pub closed spec fn uri_spec(&self) -> Uri {
        self.uri
    }

    /// The time the protection still lasts, in nanoseconds.
    pub closed spec fn ttl_spec(&self) -> Option<u128> {
        self.ttl
    }

    pub fn new(uri: Uri, ttl: Option<u128>) -> (r: Self)
        ensures
            r.uri_spec() == uri,
            r.ttl_spec() == ttl,
    {
        CacheResult { uri, ttl }
    }

    pub fn uri(&self) -> (r: &Uri)
        ensures
            *r == self.uri_spec(),
    {
        &self.uri
    }

    pub fn ttl(&self) -> (r: Option<u128>)
        ensures
            r == self.ttl_spec(),
    {
        self.ttl
    }
}

/// Nanoseconds in a millisecond.
pub const NANOS_PER_MILLI: u128 = 1_000_000;

/// How long a one-use protection is kept in the cache: fifteen minutes.
pub const PROTECT_ONCE_KEEP_NANOS: u128 = 900_000_000_000;

/// The time left at `now` (nanoseconds) before `expire_at` (milliseconds),
/// or `None` where it has passed.
pub open spec fn time_left(expire_at: u64, now: u128) -> Option<u128> {
    if expire_at * NANOS_PER_MILLI >= now {
        Some((expire_at * NANOS_PER_MILLI - now) as u128)
    } else {
        None
    }
}

/// What a lookup answers when the cache gave `record` for a protected path at
/// time `now` (nanoseconds): the URL of a protected-URL record, with the time
/// it has left where it expires; nothing for an expired one, another kind of
/// record, or none.
pub fn resolve_record(record: Option<Storage>, now: u128) -> (r: Option<CacheResult>)
    ensures
        match record {
            Some(Storage::ProtectedUrl { uri, expire_at: None }) => r matches Some(c)
                && c.uri_spec() == uri && c.ttl_spec() is None,
            Some(Storage::ProtectedUrl { uri, expire_at: Some(e) }) => match time_left(e, now) {
                Some(left) => r matches Some(c) && c.uri_spec() == uri && c.ttl_spec() == Some(
                    left,
                ),
                None => r is None,
            },
            _ => r is None,
        },
{
    match record {
        Some(Storage::ProtectedUrl { uri, expire_at }) => match expire_at {
            Some(e) => {
                let at = (e as u128) * NANOS_PER_MILLI;
                if at >= now {
                    Some(CacheResult::new(uri, Some(at - now)))
                } else {
                    None
                }
            },
            None => Some(CacheResult::new(uri, None)),
        },
        _ => None,
    }
}

/// What protecting a URL puts in the cache: the record under a fresh
/// protected path, kept there for `keep_for` nanoseconds.
pub struct ProtectPlan {
    pub key: String,
    pub record: Storage,
    pub keep_for: u128,
}

/// A fresh key is a protected path that the signature check recognises.
pub open spec fn is_fresh_protected_key(key: Seq<char>) -> bool {
    &&& exists|p: Seq<char>, e: Seq<char>|
        is_random_path(p) && extension_pool().contains(e) && key == protected_path_for(p, e)
    &&& spec_guessed_as_protected(ascii_bytes(key))
}

/// Protection of `uri` for `ttl` nanoseconds from `now` (nanoseconds): the
/// record expires at that time in whole milliseconds, and stays in the cache
/// twice as long as the protection lasts.
pub fn plan_protect(uri: Uri, now: u128, ttl: u128) -> (r: ProtectPlan)
    requires
        now + ttl <= u128::MAX,
        ttl * 2 <= u128::MAX,
    ensures
        is_fresh_protected_key(r.key@),
        r.record == (Storage::ProtectedUrl {
            uri,
            expire_at: Some(((now + ttl) / (NANOS_PER_MILLI as int)) as u64),
        }),
        r.keep_for == ttl * 2,
{
    let expire_at = ((now + ttl) / NANOS_PER_MILLI) as u64;
    let key = generate_protected_path();
    ProtectPlan {
        key,
        record: Storage::ProtectedUrl { uri, expire_at: Some(expire_at) },
        keep_for: ttl * 2,
    }
}

/// One-use protection of `uri`: the record never expires by itself and stays
/// in the cache for fifteen minutes.
pub fn plan_protect_once(uri: Uri) -> (r: ProtectPlan)
    ensures
        is_fresh_protected_key(r.key@),
        r.record == (Storage::ProtectedUrl { uri, expire_at: None }),
        r.keep_for == PROTECT_ONCE_KEEP_NANOS,
{
    let key = generate_protected_path();
    ProtectPlan {
        key,
        record: Storage::ProtectedUrl { uri, expire_at: None },
        keep_for: PROTECT_ONCE_KEEP_NANOS,
    }
}

/// A protection planned for `ttl` nanoseconds at `now` is found again by a
/// lookup at `now`, with the time it has left cut to whole milliseconds, and
/// is gone for every lookup once `ttl` has passed.
pub proof fn lemma_protected_record_lifetime(now: u128, ttl: u128, later: u128)
    requires
        now + ttl <= u128::MAX,
        (now + ttl) / (NANOS_PER_MILLI as int) <= u64::MAX,
        ttl >= NANOS_PER_MILLI,
    ensures
        ({
            let expire_at = ((now + ttl) / (NANOS_PER_MILLI as int)) as u64;
            &&& time_left(expire_at, now) matches Some(left) && ttl - NANOS_PER_MILLI < left <= ttl
            &&& later > now + ttl ==> time_left(expire_at, later) is None
        }),
{
    let t = now + ttl;
    let m = NANOS_PER_MILLI as int;
    let q = t / m;
    vstd::arithmetic::div_mod::lemma_fundamental_div_mod(t, m);
    assert(0 <= t % m < m);
    assert(q * m <= t < q * m + m);
    let expire_at = q as u64;
    assert(expire_at as int == q);
}

} // verus!
