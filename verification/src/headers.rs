//! Questions asked of the headers of a request: its host, whether it comes
//! from a health checker or a bot, whether it carries HTML, its cookies.
use http::header::ToStrError;
use http::{HeaderMap, HeaderValue};
use vstd::prelude::*;

use crate::cookies::{is_header_text, parse_cookie_header, parse_cookies_spec, CookieJar};

verus! {

broadcast use vstd::string::group_string_axioms;

#[verifier::external_type_specification]
#[verifier::external_body]
#[verifier::reject_recursive_types(T)]
pub struct ExHeaderMap<T>(HeaderMap<T>);

#[verifier::external_type_specification]
#[verifier::external_body]
pub struct ExHeaderValue(HeaderValue);

#[verifier::external_type_specification]
#[verifier::external_body]
pub struct ExToStrError(ToStrError);

#[verifier::external_type_specification]
#[verifier::external_body]
pub struct ExRegexError(regex::Error);

/// What a `HeaderMap` holds: for each header name, in lower case, the bytes
/// of its values in the order they were added.
pub uninterp spec fn header_entries(map: HeaderMap) -> Map<Seq<char>, Seq<Seq<u8>>>;

/// The bytes of a header value, as `HeaderValue::as_bytes` gives them.
pub uninterp spec fn header_value_bytes(v: HeaderValue) -> Seq<u8>;

/// What `Regex::new(pattern)` followed by `is_match(haystack)` gives: whether
/// the regular expression `pattern` matches somewhere in `haystack`, or
/// `None` where `pattern` is not a regular expression that `Regex::new`
/// accepts.
pub uninterp spec fn regex_match_result(pattern: Seq<char>, haystack: Seq<char>) -> Option<bool>;

/// The bytes of the first value of the header `name` in `map`.
pub open spec fn first_header_bytes(map: HeaderMap, name: Seq<char>) -> Option<Seq<u8>> {
    if header_entries(map).contains_key(name) && header_entries(map)[name].len() > 0 {
        Some(header_entries(map)[name][0])
    } else {
        None
    }
}

/// A header name written in lower case: letters and `-`.
pub open spec fn is_lowercase_header_name(name: Seq<char>) -> bool {
    &&& name.len() > 0
    &&& forall|i: int| 0 <= i < name.len() ==> ('a' <= #[trigger] name[i] <= 'z') || name[i] == '-'
}

/// Bytes that `HeaderValue::to_str` accepts: visible ASCII and tabs.
pub open spec fn is_visible_ascii(b: Seq<u8>) -> bool {
    forall|i: int| 0 <= i < b.len() ==> (32 <= #[trigger] b[i] < 127) || b[i] == 9
}

/// The characters of ASCII bytes.
pub open spec fn ascii_chars(b: Seq<u8>) -> Seq<char> {
    Seq::new(b.len(), |i: int| b[i] as char)
}

/// The text of a header value, where it is visible ASCII.
pub open spec fn header_text(v: Option<Seq<u8>>) -> Option<Seq<char>> {
    match v {
        Some(b) => if is_visible_ascii(b) {
            Some(ascii_chars(b))
        } else {
            None
        },
        None => None,
    }
}

/// Whether `needle` occurs in `hay`.
pub open spec fn seq_contains(hay: Seq<char>, needle: Seq<char>) -> bool {
    exists|i: int| 0 <= i <= hay.len() - needle.len() && #[trigger] hay.subrange(i, i + needle.len()) == needle
}

/// The pattern that recognises the user agents of bots and crawlers.
pub open spec fn bot_pattern() -> Seq<char> {
    "(?i)(bot|crawl|spider|slurp|archiver|facebookexternalhit|mediapartners|bingpreview|curl|wget|python-requests|headless)"@
}

/// `HeaderMap::get` with a header name in lower case. Claimed: the first
/// value of that name, when the map holds one.
#[verifier::external_body]
fn header_get<'a>(map: &'a HeaderMap, name: &str) -> (r: Option<&'a HeaderValue>)
    requires
        is_lowercase_header_name(name@),
    ensures
        r is Some <==> (header_entries(*map).contains_key(name@) && header_entries(*map)[name@].len() > 0),
        r matches Some(v) ==> header_value_bytes(*v) == header_entries(*map)[name@][0],
{
    map.get(name)
}

/// `HeaderValue::to_str`. Claimed, as its source shows: it succeeds exactly
/// when every byte is visible ASCII or a tab, and the text holds those bytes.
#[verifier::external_body]
fn header_value_to_str(v: &HeaderValue) -> (r: Result<&str, ToStrError>)
    ensures
        r is Ok <==> is_visible_ascii(header_value_bytes(*v)),
        r matches Ok(s) ==> s@ == ascii_chars(header_value_bytes(*v)),
{
    v.to_str()
}

/// `regex::Regex::new(pattern)`, then `Regex::is_match(haystack)` on the
/// regex it built. Claimed: the answer, or the failure to compile, is the
/// one named `regex_match_result`; what the regex language means is not
/// written out here.
#[verifier::external_body]
fn regex_match(pattern: &str, haystack: &str) -> (r: Result<bool, regex::Error>)
    ensures
        r is Ok <==> regex_match_result(pattern@, haystack@) is Some,
        r matches Ok(b) ==> regex_match_result(pattern@, haystack@) == Some(b),
{
    match regex::Regex::new(pattern) {
        Ok(re) => Ok(re.is_match(haystack)),
        Err(e) => Err(e),
    }
}

/// The pattern that recognises bots, as a string.
fn bot_pattern_str() -> (r: &'static str)
    ensures
        r@ == bot_pattern(),
{
    "(?i)(bot|crawl|spider|slurp|archiver|facebookexternalhit|mediapartners|bingpreview|curl|wget|python-requests|headless)"
}

/// Whether a user agent is that of a bot or a crawler.
pub fn is_bot_agent(agent: &str) -> (r: bool)
    ensures
        r == (regex_match_result(bot_pattern(), agent@) == Some(true)),
{
    match regex_match(bot_pattern_str(), agent) {
        Ok(found) => found,
        Err(_) => false,
    }
}

/// Whether the ASCII text `hay` contains `needle`.
fn ascii_contains(hay: &str, needle: &str) -> (r: bool)
    requires
        hay.is_ascii(),
        needle.is_ascii(),
    ensures
        r == seq_contains(hay@, needle@),
{
    proof {
        vstd::string::is_ascii_spec_bytes(hay);
        vstd::string::is_ascii_spec_bytes(needle);
        vstd::utf8::is_ascii_chars_nat_bound(hay@);
        vstd::utf8::is_ascii_chars_nat_bound(needle@);
    }
    let h = hay.as_bytes();
    let n = needle.as_bytes();
    let ghost hc = hay@;
    let ghost nc = needle@;
    assert(forall|i: int| 0 <= i < hc.len() ==> #[trigger] h@[i] == hc[i] as u8);
    assert(forall|i: int| 0 <= i < nc.len() ==> #[trigger] n@[i] == nc[i] as u8);
    if n.len() > h.len() {
        return false;
    }
    let hl = h.len();
    let last = hl - n.len();
    let mut i: usize = 0;
    while i <= last
        invariant
            h@.len() == hc.len(),
            n@.len() == nc.len(),
            last == hc.len() - nc.len(),
            hl == hc.len(),
            forall|k: int| 0 <= k < hc.len() ==> #[trigger] h@[k] == hc[k] as u8,
            forall|k: int| 0 <= k < nc.len() ==> #[trigger] n@[k] == nc[k] as u8,
            forall|k: int| 0 <= k < hc.len() ==> (#[trigger] hc[k] as nat) < 128,
            forall|k: int| 0 <= k < nc.len() ==> (#[trigger] nc[k] as nat) < 128,
            forall|k: int| 0 <= k < i ==> #[trigger] hc.subrange(k, k + nc.len()) != nc,
            hay@ == hc,
            needle@ == nc,
        decreases last + 1 - i,
    {
        let mut j: usize = 0;
        while j < n.len() && h[i + j] == n[j]
            invariant
                h@.len() == hc.len(),
                n@.len() == nc.len(),
                i <= last,
                hl == hc.len(),
                last == hc.len() - nc.len(),
                j <= nc.len(),
                forall|k: int| 0 <= k < hc.len() ==> #[trigger] h@[k] == hc[k] as u8,
                forall|k: int| 0 <= k < nc.len() ==> #[trigger] n@[k] == nc[k] as u8,
                forall|k: int| 0 <= k < hc.len() ==> (#[trigger] hc[k] as nat) < 128,
                forall|k: int| 0 <= k < nc.len() ==> (#[trigger] nc[k] as nat) < 128,
                forall|k: int| 0 <= k < j ==> hc[i + k] == #[trigger] nc[k],
            decreases nc.len() - j,
        {
            proof {
                lemma_ascii_byte_injective(hc[i + j], nc[j as int]);
            }
            j = j + 1;
        }
        if j == n.len() {
            assert(hc.subrange(i as int, i + nc.len()) =~= nc);
            return true;
        }
        proof {
            lemma_ascii_byte_injective(hc[i + j], nc[j as int]);
        }
        assert(hc.subrange(i as int, i + nc.len())[j as int] != nc[j as int]);
        i = i + 1;
    }
    false
}

/// Header questions asked of a request.
pub trait HeaderUtilsExt {
    /// The bytes of the first value of the header `name`, in lower case.
    spec fn first_value(&self, name: Seq<char>) -> Option<Seq<u8>>;

    /// The `Host` header, where it is visible ASCII.
    fn hostname(&self) -> (r: Option<&str>)
        ensures
            r is Some <==> header_text(self.first_value("host"@)) is Some,
            r matches Some(s) ==> header_text(self.first_value("host"@)) == Some(s@),
    ;

    /// Whether the user agent is that of the health checker: it contains
    /// `HAAgent`.
    fn is_healthcheck(&self) -> (r: bool)
        ensures
            r == match header_text(self.first_value("user-agent"@)) {
                Some(t) => seq_contains(t, "HAAgent"@),
                None => false,
            },
    ;

    /// Whether the user agent is that of a bot or a crawler.
    fn is_bot(&self) -> (r: bool)
        ensures
            r == match header_text(self.first_value("user-agent"@)) {
                Some(t) => regex_match_result(bot_pattern(), t) == Some(true),
                None => false,
            },
    ;

    /// Whether the content type names HTML: it contains `text/html`.
    fn is_text_html(&self) -> (r: bool)
        ensures
            r == match header_text(self.first_value("content-type"@)) {
                Some(t) => seq_contains(t, "text/html"@),
                None => false,
            },
    ;

    /// The cookies of the `Cookie` header; none where there is no such
    /// header. The header must be visible ASCII.
    fn get_cookies(&self) -> (r: CookieJar)
        requires
            self.first_value("cookie"@) matches Some(b) ==> is_visible_ascii(b),
        ensures
            r@ == match self.first_value("cookie"@) {
                Some(b) => parse_cookies_spec(ascii_chars(b)),
                None => Map::empty(),
            },
    ;
}

/// The text of the first value of `name`, where it is visible ASCII.
fn header_str<'a>(map: &'a HeaderMap, name: &str) -> (r: Option<&'a str>)
    requires
        is_lowercase_header_name(name@),
    ensures
        r is Some <==> header_text(map.first_value(name@)) is Some,
        r matches Some(s) ==> header_text(map.first_value(name@)) == Some(s@),
{
    match header_get(map, name) {
        Some(v) => match header_value_to_str(v) {
            Ok(s) => Some(s),
            Err(_) => None,
        },
        None => None,
    }
}

proof fn lemma_names()
    ensures
        is_lowercase_header_name("host"@),
        is_lowercase_header_name("user-agent"@),
        is_lowercase_header_name("content-type"@),
        is_lowercase_header_name("cookie"@),
        "HAAgent"@ == seq!['H', 'A', 'A', 'g', 'e', 'n', 't'],
        "text/html"@ == seq!['t', 'e', 'x', 't', '/', 'h', 't', 'm', 'l'],
{
    reveal_strlit("host");
    reveal_strlit("user-agent");
    reveal_strlit("content-type");
    reveal_strlit("cookie");
    reveal_strlit("HAAgent");
    reveal_strlit("text/html");
}

/// Header text is ASCII.
proof fn lemma_header_text_ascii(b: Seq<u8>)
    requires
        is_visible_ascii(b),
    ensures
        vstd::utf8::is_ascii_chars(ascii_chars(b)),
        is_header_text(ascii_chars(b)),
{
    assert forall|i: int| 0 <= i < b.len() implies '\0' <= #[trigger] ascii_chars(b)[i] <= '\u{7f}'
        && ((' ' <= ascii_chars(b)[i] <= '~') || ascii_chars(b)[i] == '\t') by {
        let x = b[i];
        assert(32 <= x < 127 || x == 9);
    }
}

impl HeaderUtilsExt for HeaderMap {
    open spec fn first_value(&self, name: Seq<char>) -> Option<Seq<u8>> {
        first_header_bytes(*self, name)
    }

    fn hostname(&self) -> (r: Option<&str>) {
        proof {
            lemma_names();
        }
        header_str(self, "host")
    }

    fn is_healthcheck(&self) -> (r: bool) {
        proof {
            lemma_names();
        }
        match header_str(self, "user-agent") {
            Some(v) => {
                proof {
                    lemma_header_text_ascii(self.first_value("user-agent"@).unwrap());
                }
                let needle = "HAAgent";
                assert(needle.is_ascii());
                ascii_contains(v, needle)
            },
            None => false,
        }
    }

    fn is_bot(&self) -> (r: bool) {
        proof {
            lemma_names();
        }
        match header_str(self, "user-agent") {
            Some(v) => is_bot_agent(v),
            None => false,
        }
    }

    fn is_text_html(&self) -> (r: bool) {
        proof {
            lemma_names();
        }
        match header_str(self, "content-type") {
            Some(v) => {
                proof {
                    lemma_header_text_ascii(self.first_value("content-type"@).unwrap());
                }
                let needle = "text/html";
                assert(needle.is_ascii());
                ascii_contains(v, needle)
            },
            None => false,
        }
    }

    fn get_cookies(&self) -> (r: CookieJar) {
        proof {
            lemma_names();
        }
        match header_get(self, "cookie") {
            None => CookieJar::new(),
            Some(cookie) => match header_value_to_str(cookie) {
                Ok(text) => {
                    proof {
                        lemma_header_text_ascii(header_value_bytes(*cookie));
                    }
                    parse_cookie_header(text)
                },
                Err(_) => CookieJar::new(),
            },
        }
    }
}

/// The cookies of a request, or `None` where its `Cookie` header is not
/// visible ASCII text.
pub fn request_cookies(headers: &HeaderMap) -> (r: Option<CookieJar>)
    ensures
        r is None <==> (headers.first_value("cookie"@) matches Some(b) && !is_visible_ascii(b)),
        r matches Some(jar) ==> jar@ == match headers.first_value("cookie"@) {
            Some(b) => parse_cookies_spec(ascii_chars(b)),
            None => Map::empty(),
        },
{
    proof {
        lemma_names();
    }
    match header_get(headers, "cookie") {
        Some(cookie) => match header_value_to_str(cookie) {
            Ok(_) => Some(headers.get_cookies()),
            Err(_) => None,
        },
        None => Some(headers.get_cookies()),
    }
}


/// ASCII characters with the same byte are the same.
proof fn lemma_ascii_byte_injective(c: char, d: char)
    requires
        (c as nat) < 128,
        (d as nat) < 128,
    ensures
        (c as u8 == d as u8) == (c == d),
{
    assert((c as u8) as int == c as int);
    assert((d as u8) as int == d as int);
}
} // verus!
