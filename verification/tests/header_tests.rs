use http::header::{HeaderValue, CONTENT_TYPE, COOKIE, HOST, USER_AGENT};
use http::HeaderMap;
use shield::cookies::parse_cookie_header;
use shield::headers::{is_bot_agent, request_cookies, HeaderUtilsExt};

#[test]
fn test_bots1() {
    assert!(is_bot_agent("Bingbot"));
    assert!(is_bot_agent("GoogleBot"));
    assert!(is_bot_agent(
        "Mozilla/5.0 (compatible; bingbot/2.0; +http://www.bing.com/bingbot.htm)"
    ));
}

#[test]
fn browsers_are_not_bots() {
    assert!(!is_bot_agent(
        "Mozilla/5.0 (X11; Linux x86_64; rv:109.0) Gecko/20100101 Firefox/115.0"
    ));
}

#[test]
fn hostname_read() {
    let mut map = HeaderMap::new();
    assert_eq!(map.hostname(), None);
    map.insert(HOST, HeaderValue::from_static("example.com"));
    assert_eq!(map.hostname(), Some("example.com"));
    map.insert(HOST, HeaderValue::from_bytes(b"caf\xc3\xa9").unwrap());
    assert_eq!(map.hostname(), None);
}

#[test]
fn healthcheck_and_bot_flags() {
    let mut map = HeaderMap::new();
    assert!(!map.is_healthcheck());
    assert!(!map.is_bot());
    map.insert(USER_AGENT, HeaderValue::from_static("HAAgent/1.0"));
    assert!(map.is_healthcheck());
    assert!(!map.is_bot());
    map.insert(USER_AGENT, HeaderValue::from_static("Googlebot/2.1"));
    assert!(!map.is_healthcheck());
    assert!(map.is_bot());
}

#[test]
fn text_html_flag() {
    let mut map = HeaderMap::new();
    assert!(!map.is_text_html());
    map.insert(CONTENT_TYPE, HeaderValue::from_static("text/html; charset=utf-8"));
    assert!(map.is_text_html());
    map.insert(CONTENT_TYPE, HeaderValue::from_static("application/json"));
    assert!(!map.is_text_html());
}

#[test]
fn cookies_from_headers() {
    let mut map = HeaderMap::new();
    assert!(map.get_cookies().get("a").is_none());
    map.insert(COOKIE, HeaderValue::from_static("a=1; b=two; c = 3"));
    let jar = map.get_cookies();
    assert_eq!(jar.get("a").map(|s| s.as_str()), Some("1"));
    assert_eq!(jar.get("b").map(|s| s.as_str()), Some("two"));
    assert_eq!(jar.get("c").map(|s| s.as_str()), Some(" 3"));
    assert!(jar.get("d").is_none());
    assert!(request_cookies(&map).is_some());
    map.insert(COOKIE, HeaderValue::from_bytes(b"a=\xff").unwrap());
    assert!(request_cookies(&map).is_none());
}

#[test]
fn cookie_pieces() {
    let jar = parse_cookie_header("x=1,y=2");
    assert_eq!(jar.get("x").map(|s| s.as_str()), Some("1"));
    assert_eq!(jar.get("y").map(|s| s.as_str()), Some("2"));

    let jar = parse_cookie_header("a=1;a=2");
    assert_eq!(jar.get("a").map(|s| s.as_str()), Some("2"));

    let jar = parse_cookie_header("a=1; b;c=2");
    assert_eq!(jar.get("b;c").map(|s| s.as_str()), Some("2"));

    let jar = parse_cookie_header("a;;=v");
    assert_eq!(jar.get("a").map(|s| s.as_str()), Some("v"));

    let jar = parse_cookie_header("k=;");
    assert_eq!(jar.get("k").map(|s| s.as_str()), Some(""));

    let jar = parse_cookie_header("k=a=b;");
    assert_eq!(jar.get("k").map(|s| s.as_str()), Some("a=b"));

    let jar = parse_cookie_header("no pairs here");
    assert!(jar.pairs().is_empty());
}

#[test]
fn cookie_pairs_in_order() {
    let jar = parse_cookie_header("a=1; b=2; a=3");
    let names: Vec<&str> = jar.pairs().iter().map(|p| p.0.as_str()).collect();
    assert_eq!(names, vec!["a", "b", "a"]);
}

/// The cookies as a regex-driven reading of the header finds them.
fn cookies_by_regex(text: &str) -> std::collections::HashMap<String, String> {
    let re = regex::Regex::new("(.*?)=((.*?)[;,]|.*$)").unwrap();
    let mut result = std::collections::HashMap::new();
    for cap in re.captures_iter(text) {
        if let Some(cap_key) = cap.get(1) {
            if let Some(val) = cap.get(3) {
                result.insert(cap_key.as_str().trim().to_string(), val.as_str().to_string());
                continue;
            }
            if let Some(val) = cap.get(2) {
                result.insert(
                    cap_key.as_str().trim().trim_end_matches(';').to_string(),
                    val.as_str().to_string(),
                );
                continue;
            }
        }
    }
    result
}

#[test]
fn cookie_parsing_agrees_with_regex_reading() {
    let alphabet = ['a', 'b', '=', ';', ',', ' ', '\t', 'c'];
    let mut state: u64 = 0x2545_f491_4f6c_dd1d;
    for _ in 0..5000 {
        state ^= state << 13;
        state ^= state >> 7;
        state ^= state << 17;
        let len = (state % 14) as usize;
        let mut text = String::new();
        let mut s = state;
        for _ in 0..len {
            s = s.wrapping_mul(6364136223846793005).wrapping_add(1442695040888963407);
            text.push(alphabet[((s >> 33) % alphabet.len() as u64) as usize]);
        }
        let expected = cookies_by_regex(&text);
        let jar = parse_cookie_header(&text);
        let mut got = std::collections::HashMap::new();
        for (k, v) in jar.pairs() {
            got.insert(k.clone(), v.clone());
        }
        assert_eq!(got, expected, "header text {:?}", text);
    }
}
