//! Signed protected paths: a random path followed by the CRC-8 of that path
//! in hexadecimal and a file extension. A path whose signature checks out is
//! guessed to be protected before any cache lookup is made.
use rand::rngs::ThreadRng;
use std::time::{Duration, SystemTime};
use vstd::prelude::*;
use vstd::string::StringSliceAdditionalSpecFns;
use vstd::utf8::*;

use crate::random::{
    drawn_in_turn, extension_pool, fresh_thread_rng, is_path_char, is_random_path, path_from_draws_spec,
    path_log, RandExt,
};

verus! {

broadcast use vstd::string::group_string_axioms;

/// The byte of `.` in ASCII.
pub const DOT_BYTE: u8 = 0x2e;

/// The byte of `+` in ASCII.
pub const PLUS_BYTE: u8 = 0x2b;

/// The bytes of an ASCII character sequence.
pub open spec fn ascii_bytes(s: Seq<char>) -> Seq<u8> {
    Seq::new(s.len(), |i: int| s[i] as u8)
}

/// The checksum CRC-8/MAXIM-DOW (polynomial 0x31, reflected, initial value
/// and final xor 0) of `data`, as the `crc` crate computes it.
pub uninterp spec fn crc8_maxim_dow(data: Seq<u8>) -> u8;

/// `crc::Crc::<u8>::new(&crc::CRC_8_MAXIM_DOW).checksum(data)`. Claimed: the
/// result is the checksum named `crc8_maxim_dow` of the bytes; nothing more
/// of its value is stated.
#[verifier::external_body]
fn crc8_checksum(data: &[u8]) -> (r: u8)
    ensures
        r == crc8_maxim_dow(data@),
{
    crc::Crc::<u8>::new(&crc::CRC_8_MAXIM_DOW).checksum(data)
}

/// The CRC-8/MAXIM-DOW checksum of `v`.
pub fn crc8_hash(v: &[u8]) -> (r: u8)
    ensures
        r == crc8_maxim_dow(v@),
{
    crc8_checksum(v)
}

/// The value of a hexadecimal digit, in either case.
pub open spec fn hex_digit_value(b: u8) -> Option<u8> {
    if 0x30 <= b <= 0x39 {
        Some((b - 0x30) as u8)
    } else if 0x61 <= b <= 0x66 {
        Some((b - 0x61 + 10) as u8)
    } else if 0x41 <= b <= 0x46 {
        Some((b - 0x41 + 10) as u8)
    } else {
        None
    }
}

/// What `u8::from_str_radix` with radix 16 gives for the two-byte text
/// `b0 b1`: a `+` sign and one digit, or two digits.
pub open spec fn hex_pair_value(b0: u8, b1: u8) -> Option<u8> {
    if b0 == PLUS_BYTE {
        hex_digit_value(b1)
    } else {
        match (hex_digit_value(b0), hex_digit_value(b1)) {
            (Some(h), Some(l)) => Some((h * 16 + l) as u8),
            _ => None,
        }
    }
}

/// The lower-case hexadecimal digit of `n < 16`.
pub open spec fn lower_hex_digit(n: int) -> char {
    if n < 10 {
        (0x30 + n) as char
    } else {
        (0x61 + n - 10) as char
    }
}

/// `v` written as two lower-case hexadecimal digits, as `{:0>2x}` writes it.
pub open spec fn hex2(v: u8) -> Seq<char> {
    seq![lower_hex_digit((v / 16) as int), lower_hex_digit((v % 16) as int)]
}

/// The upper-case hexadecimal digit of `n < 16`.
pub open spec fn upper_hex_digit(n: int) -> char {
    if n < 10 {
        (0x30 + n) as char
    } else {
        (0x41 + n - 10) as char
    }
}

/// `v` written as two upper-case hexadecimal digits, as `{:0>2X}` writes it.
pub open spec fn hex2_upper(v: u8) -> Seq<char> {
    seq![upper_hex_digit((v / 16) as int), upper_hex_digit((v % 16) as int)]
}

/// The index of the last `x` in `b`.
pub open spec fn last_index_of(b: Seq<u8>, x: u8) -> Option<int>
    decreases b.len(),
{
    if b.len() == 0 {
        None
    } else if b.last() == x {
        Some(b.len() - 1)
    } else {
        last_index_of(b.drop_last(), x)
    }
}

/// The signature check on the bytes `b` of a path: cut the path at its last
/// `.`; what precedes must be at least three bytes long and end in two
/// hexadecimal digits that give the CRC-8 of the bytes before them.
pub open spec fn spec_guessed_as_protected(b: Seq<u8>) -> bool {
    match last_index_of(b, DOT_BYTE) {
        None => false,
        Some(i) => i >= 3 && hex_pair_value(b[i - 2], b[i - 1]) == Some(
            crc8_maxim_dow(b.subrange(0, i - 2)),
        ),
    }
}

/// `i` is the index of the last `.` of `b`.
pub open spec fn is_last_dot(b: Seq<u8>, i: int) -> bool {
    &&& 0 <= i < b.len()
    &&& b[i] == DOT_BYTE
    &&& forall|j: int| i < j < b.len() ==> b[j] != DOT_BYTE
}

/// The byte `c` is an ASCII hexadecimal digit, of either case, that stands
/// for `n`.
pub open spec fn is_hex_digit_for(c: u8, n: int) -> bool {
    ||| 0 <= n < 10 && c == 0x30 + n
    ||| 10 <= n < 16 && (c == 0x61 + n - 10 || c == 0x41 + n - 10)
}

/// The two bytes `b0 b1` spell the checksum `sum` in hexadecimal: its high
/// and its low digit, or a `+` sign and the one digit of a checksum below 16.
pub open spec fn signature_digits_match(b0: u8, b1: u8, sum: u8) -> bool {
    ||| is_hex_digit_for(b0, (sum / 16) as int) && is_hex_digit_for(b1, (sum % 16) as int)
    ||| b0 == PLUS_BYTE && sum < 16 && is_hex_digit_for(b1, sum as int)
}

/// The text to be read as the signature starts on a character boundary: the
/// check reads it as a string slice.
pub open spec fn signature_on_char_boundary(b: Seq<u8>) -> bool {
    match last_index_of(b, DOT_BYTE) {
        None => true,
        Some(i) => i >= 3 ==> is_char_boundary(b, i - 2),
    }
}

/// A protected path made of the random path `p` and the extension `e`:
/// `/`, `p`, the signature of `/p` and `.e`.
pub open spec fn protected_path_for(p: Seq<char>, e: Seq<char>) -> Seq<char> {
    let path = seq!['/'] + p;
    path + hex2(crc8_maxim_dow(encode_utf8(path))) + seq!['.'] + e
}

fn last_byte_index(b: &[u8], x: u8) -> (r: Option<usize>)
    ensures
        r is None <==> last_index_of(b@, x) is None,
        r matches Some(i) ==> last_index_of(b@, x) == Some(i as int) && i < b@.len(),
{
    let mut n = b.len();
    assert(b@.subrange(0, b@.len() as int) =~= b@);
    while n > 0
        invariant
            n <= b@.len(),
            last_index_of(b@, x) == last_index_of(b@.subrange(0, n as int), x),
        decreases n,
    {
        let ghost pre = b@.subrange(0, n as int);
        assert(pre.drop_last() =~= b@.subrange(0, n - 1));
        if b[n - 1] == x {
            return Some(n - 1);
        }
        n = n - 1;
    }
    None
}

fn hex_digit(b: u8) -> (r: Option<u8>)
    ensures
        r == hex_digit_value(b),
{
    if 0x30 <= b && b <= 0x39 {
        Some(b - 0x30)
    } else if 0x61 <= b && b <= 0x66 {
        Some(b - 0x61 + 10)
    } else if 0x41 <= b && b <= 0x46 {
        Some(b - 0x41 + 10)
    } else {
        None
    }
}

/// Reads the two-byte text `b0 b1` as `u8::from_str_radix` does with radix 16.
pub fn parse_hex_pair(b0: u8, b1: u8) -> (r: Option<u8>)
    ensures
        r == hex_pair_value(b0, b1),
{
    if b0 == PLUS_BYTE {
        hex_digit(b1)
    } else {
        match (hex_digit(b0), hex_digit(b1)) {
            (Some(h), Some(l)) => Some(h * 16 + l),
            _ => None,
        }
    }
}

/// Whether `buf`, the path of a request, carries a valid signature; only such
/// paths can have been handed out as protected.
pub fn guessed_as_protected(buf: &str) -> (r: bool)
    requires
        signature_on_char_boundary(buf.spec_bytes()),
    ensures
        r == spec_guessed_as_protected(buf.spec_bytes()),
        (forall|j: int| 0 <= j < buf.spec_bytes().len() ==> buf.spec_bytes()[j] != DOT_BYTE) ==> !r,
        forall|i: int|
            #[trigger] is_last_dot(buf.spec_bytes(), i) ==> (r <==> i >= 3 && signature_digits_match(
                buf.spec_bytes()[i - 2],
                buf.spec_bytes()[i - 1],
                crc8_maxim_dow(buf.spec_bytes().subrange(0, i - 2)),
            )),
{
    proof {
        lemma_signature_check_exact(buf.spec_bytes());
    }
    let b = buf.as_bytes();
    match last_byte_index(b, DOT_BYTE) {
        None => false,
        Some(idx) => {
            if idx < 3 {
                false
            } else {
                let (data, _) = b.split_at(idx - 2);
                match parse_hex_pair(b[idx - 2], b[idx - 1]) {
                    Some(hash) => hash == crc8_hash(data),
                    None => false,
                }
            }
        },
    }
}

/// Appends `v` as two lower-case hexadecimal digits.
fn push_hex_byte(out: &mut String, v: u8)
    ensures
        final(out)@ == old(out)@ + hex2(v),
{
    let digits = "0123456789abcdef";
    proof {
        reveal_strlit("0123456789abcdef");
    }
    assert(digits.is_ascii());
    assert(forall|n: int| 0 <= n < 16 ==> #[trigger] digits@[n] == lower_hex_digit(n));
    let hi = digits.substring_ascii((v / 16) as usize, (v / 16) as usize + 1);
    let lo = digits.substring_ascii((v % 16) as usize, (v % 16) as usize + 1);
    out.append(hi);
    out.append(lo);
    assert(out@ =~= old(out)@ + hex2(v));
}

/// The protected path made of `body` and `ext`: `/`, `body`, the CRC-8 of
/// these (over their UTF-8 bytes) in two lower-case hexadecimal digits, `.`
/// and `ext`.
pub fn protected_path_from(body: &str, ext: &str) -> (r: String)
    ensures
        r@ == protected_path_for(body@, ext@),
{
    let mut path = String::new();
    path.append("/");
    path.append(body);
    proof {
        reveal_strlit("/");
        reveal_strlit(".");
        assert(path@ =~= seq!['/'] + body@);
    }
    let sum = crc8_hash(path.as_str().as_bytes());
    let mut out = path;
    push_hex_byte(&mut out, sum);
    out.append(".");
    out.append(ext);
    assert(out@ =~= protected_path_for(body@, ext@));
    out
}

/// A fresh protected path: `/`, a random path, the CRC-8 of these in two
/// lower-case hexadecimal digits, `.` and a random extension. The path is the
/// one that the draws of `gen_path` on the thread generator pick, and the
/// extension the one that a further draw in `0..20` picks.
pub fn generate_protected_path() -> (r: String)
    ensures
        exists|p: Seq<char>, e: Seq<char>|
            is_random_path(p) && extension_pool().contains(e) && r@ == protected_path_for(p, e),
        exists|
            states: Seq<ThreadRng>,
            first: usize,
            units: Seq<(i32, i32, usize)>,
            last: usize,
            more: Seq<ThreadRng>,
            i: int,
        |
            #![trigger drawn_in_turn(ThreadRng::step(), states, path_log(first, units, last)), drawn_in_turn(ThreadRng::step(), more, seq![(0int, 20int, i)])]
            drawn_in_turn(ThreadRng::step(), states, path_log(first, units, last)) && drawn_in_turn(
                ThreadRng::step(),
                more,
                seq![(0int, 20int, i)],
            ) && 0 <= i < 20 && r@ == protected_path_for(
                path_from_draws_spec(first, units, last),
                extension_pool()[i],
            ),
        is_ascii_chars(r@),
        spec_guessed_as_protected(ascii_bytes(r@)),
        signature_on_char_boundary(ascii_bytes(r@)),
        encode_utf8(r@) == ascii_bytes(r@),
{
    let mut rng: ThreadRng = fresh_thread_rng();
    let body = rng.gen_path();
    let ghost (states, first, units, last) = choose|
        states: Seq<ThreadRng>,
        first: usize,
        units: Seq<(i32, i32, usize)>,
        last: usize,
    |
        #[trigger] drawn_in_turn(ThreadRng::step(), states, path_log(first, units, last))
            && body@ == path_from_draws_spec(first, units, last);
    let mut rng2: ThreadRng = fresh_thread_rng();
    let ext = rng2.gen_ext();
    let ghost (more, i) = choose|more: Seq<ThreadRng>, i: int|
        #[trigger] drawn_in_turn(ThreadRng::step(), more, seq![(0int, 20int, i)]) && 0 <= i < 20
            && ext@ == extension_pool()[i];
    let out = protected_path_from(body.as_str(), ext);
    proof {
        assert(drawn_in_turn(ThreadRng::step(), states, path_log(first, units, last)));
        assert(drawn_in_turn(ThreadRng::step(), more, seq![(0int, 20int, i)]));
        lemma_generated_paths_are_recognized(body@, ext@);
        is_ascii_chars_encode_utf8(out@);
        assert(encode_utf8(out@) =~= ascii_bytes(out@));
    }
    out
}

/// Random paths are ASCII.
proof fn lemma_random_path_ascii(p: Seq<char>)
    requires
        is_random_path(p),
    ensures
        is_ascii_chars(p),
{
    let n = choose|n: nat|
        8 <= n < 28 && #[trigger] crate::random::path_units(p.subrange(1, p.len() - 1), n);
    lemma_path_units_chars(p.subrange(1, p.len() - 1), n);
    assert forall|i: int| 0 <= i < p.len() implies '\0' <= #[trigger] p[i] <= '\u{7f}' by {
        if 1 <= i < p.len() - 1 {
            assert(p[i] == p.subrange(1, p.len() - 1)[i - 1]);
        }
    }
}

/// The characters of `n` path units are path characters, `/` and `.`.
proof fn lemma_path_units_chars(s: Seq<char>, n: nat)
    requires
        crate::random::path_units(s, n),
    ensures
        forall|i: int|
            0 <= i < s.len() ==> is_path_char(#[trigger] s[i]) || s[i] == '/' || s[i] == '.',
    decreases n,
{
    if n > 0 {
        let s1 = s.drop_last();
        let s2 = if s1.len() > 0 && s1.last() == '.' {
            s1.drop_last()
        } else {
            s1
        };
        let s3 = if s2.len() > 0 && s2.last() == '/' {
            s2.drop_last()
        } else {
            s2
        };
        lemma_path_units_chars(s3, (n - 1) as nat);
        assert forall|i: int| 0 <= i < s.len() implies is_path_char(#[trigger] s[i]) || s[i]
            == '/' || s[i] == '.' by {
            if i < s3.len() {
                assert(s[i] == s3[i]);
            } else if i < s2.len() {
                assert(s[i] == s2[i]);
            } else if i < s1.len() {
                assert(s[i] == s1[i]);
            }
        }
    }
}

/// The last `x` of `a + [x] + c`, where `c` holds no `x`, is the one between.
proof fn lemma_last_index_of_split(a: Seq<u8>, x: u8, c: Seq<u8>)
    requires
        forall|i: int| 0 <= i < c.len() ==> c[i] != x,
    ensures
        last_index_of(a + seq![x] + c, x) == Some(a.len() as int),
    decreases c.len(),
{
    let s = a + seq![x] + c;
    if c.len() == 0 {
        assert(s.last() == x);
    } else {
        assert(s.last() == c.last());
        assert(s.drop_last() =~= a + seq![x] + c.drop_last());
        lemma_last_index_of_split(a, x, c.drop_last());
    }
}

/// Any text followed by its CRC-8 in two hexadecimal digits of either case, a
/// `.` and an extension without `.` carries a valid signature; where the text
/// and the extension are UTF-8, the signature starts on a character boundary.
pub proof fn lemma_signed_text_recognized(s: Seq<u8>, e: Seq<u8>, upper: bool)
    requires
        s.len() >= 1,
        forall|j: int| 0 <= j < e.len() ==> #[trigger] e[j] != DOT_BYTE,
    ensures
        ({
            let sum = crc8_maxim_dow(s);
            let h = if upper {
                ascii_bytes(hex2_upper(sum))
            } else {
                ascii_bytes(hex2(sum))
            };
            let b = s + h + seq![DOT_BYTE] + e;
            &&& spec_guessed_as_protected(b)
            &&& valid_utf8(s) && valid_utf8(e) ==> signature_on_char_boundary(b)
        }),
{
    let sum = crc8_maxim_dow(s);
    let hc = if upper {
        hex2_upper(sum)
    } else {
        hex2(sum)
    };
    let h = ascii_bytes(hc);
    let head = s + h;
    let b = s + h + seq![DOT_BYTE] + e;
    assert(b =~= head + seq![DOT_BYTE] + e);
    lemma_last_index_of_split(head, DOT_BYTE, e);
    let i = head.len() as int;
    assert(i >= 3);
    assert(b.subrange(0, i - 2) =~= s);
    let hi = sum / 16;
    let lo = sum % 16;
    assert(b[i - 2] == h[0]);
    assert(b[i - 1] == h[1]);
    assert(hex_digit_value(lower_hex_digit(hi as int) as u8) == Some(hi));
    assert(hex_digit_value(lower_hex_digit(lo as int) as u8) == Some(lo));
    assert(hex_digit_value(upper_hex_digit(hi as int) as u8) == Some(hi));
    assert(hex_digit_value(upper_hex_digit(lo as int) as u8) == Some(lo));
    assert(hex_pair_value(b[i - 2], b[i - 1]) == Some(sum));
    if valid_utf8(s) && valid_utf8(e) {
        assert(is_ascii_chars(hc));
        is_ascii_chars_encode_utf8(hc);
        assert(encode_utf8(hc) =~= h);
        encode_utf8_valid_utf8(hc);
        assert(is_ascii_chars(seq!['.']));
        is_ascii_chars_encode_utf8(seq!['.']);
        assert(encode_utf8(seq!['.']) =~= seq![DOT_BYTE]);
        encode_utf8_valid_utf8(seq!['.']);
        valid_utf8_concat(s, h);
        valid_utf8_concat(s + h, seq![DOT_BYTE]);
        valid_utf8_concat(s + h + seq![DOT_BYTE], e);
        is_char_boundary_iff_not_is_continuation_byte(b, i - 2);
    }
}

/// Every path built from a random path and an extension of the pool carries
/// a valid signature, on a character boundary: the check recognises every
/// path that `generate_protected_path` hands out.
pub proof fn lemma_generated_paths_are_recognized(p: Seq<char>, e: Seq<char>)
    requires
        is_random_path(p),
        extension_pool().contains(e),
    ensures
        spec_guessed_as_protected(ascii_bytes(protected_path_for(p, e))),
        signature_on_char_boundary(ascii_bytes(protected_path_for(p, e))),
        is_ascii_chars(protected_path_for(p, e)),
{
    lemma_random_path_ascii(p);
    lemma_extension_pool_members(e);
    let path = seq!['/'] + p;
    assert(is_ascii_chars(path));
    is_ascii_chars_encode_utf8(path);
    assert(encode_utf8(path) =~= ascii_bytes(path));
    encode_utf8_valid_utf8(path);
    assert(is_ascii_chars(e));
    is_ascii_chars_encode_utf8(e);
    assert(encode_utf8(e) =~= ascii_bytes(e));
    encode_utf8_valid_utf8(e);
    let sum = crc8_maxim_dow(ascii_bytes(path));
    let full = protected_path_for(p, e);
    assert(ascii_bytes(full) =~= ascii_bytes(path) + ascii_bytes(hex2(sum)) + seq![DOT_BYTE]
        + ascii_bytes(e));
    lemma_signed_text_recognized(ascii_bytes(path), ascii_bytes(e), false);
    assert forall|j: int| 0 <= j < full.len() implies '\0' <= #[trigger] full[j] <= '\u{7f}' by {
        if j < path.len() {
            assert(full[j] == path[j]);
        } else if j >= path.len() + 3 {
            assert(full[j] == e[j - path.len() - 3]);
        }
    }
}

/// In ASCII text every position is a character boundary, so the signature of
/// an ASCII path can always be read; its bytes are its characters.
pub proof fn lemma_ascii_signature_boundary(s: Seq<char>)
    requires
        is_ascii_chars(s),
    ensures
        encode_utf8(s) == ascii_bytes(s),
        signature_on_char_boundary(encode_utf8(s)),
{
    is_ascii_chars_encode_utf8(s);
    assert(encode_utf8(s) =~= ascii_bytes(s));
    encode_utf8_valid_utf8(s);
    let b = encode_utf8(s);
    match last_index_of(b, DOT_BYTE) {
        Some(i) => {
            if i >= 3 {
                lemma_last_index_in_bounds(b, DOT_BYTE);
                vstd::utf8::is_ascii_chars_nat_bound(s);
                assert((s[i - 2] as nat) < 128);
                is_char_boundary_iff_not_is_continuation_byte(b, i - 2);
            }
        },
        None => {},
    }
}

/// The last index of `x`, where there is one, lies in `b`.
proof fn lemma_last_index_in_bounds(b: Seq<u8>, x: u8)
    ensures
        last_index_of(b, x) matches Some(i) ==> 0 <= i < b.len(),
    decreases b.len(),
{
    if b.len() > 0 && b.last() != x {
        lemma_last_index_in_bounds(b.drop_last(), x);
    }
}

/// `last_index_of` finds the last `x`, and finds none where there is none.
proof fn lemma_last_index_of_exact(b: Seq<u8>, x: u8)
    ensures
        last_index_of(b, x) matches Some(i) ==> 0 <= i < b.len() && b[i] == x && forall|j: int|
            i < j < b.len() ==> b[j] != x,
        last_index_of(b, x) is None ==> forall|j: int| 0 <= j < b.len() ==> b[j] != x,
    decreases b.len(),
{
    if b.len() > 0 && b.last() != x {
        let rest = b.drop_last();
        lemma_last_index_of_exact(rest, x);
        assert forall|j: int| 0 <= j < rest.len() implies b[j] == rest[j] by {}
    }
}

/// A hexadecimal digit stands for one value, the one `hex_digit_value` reads.
proof fn lemma_hex_digit_for(c: u8, n: int)
    requires
        0 <= n < 16,
    ensures
        hex_digit_value(c) == Some(n as u8) <==> is_hex_digit_for(c, n),
{
}

/// Reading two bytes as a hexadecimal number gives `sum` exactly when they
/// spell `sum`.
proof fn lemma_hex_pair_spells(b0: u8, b1: u8, sum: u8)
    ensures
        hex_pair_value(b0, b1) == Some(sum) <==> signature_digits_match(b0, b1, sum),
{
    let hi = (sum / 16) as int;
    let lo = (sum % 16) as int;
    lemma_hex_digit_for(b0, hi);
    lemma_hex_digit_for(b1, lo);
    if sum < 16 {
        lemma_hex_digit_for(b1, sum as int);
    }
    if b0 != PLUS_BYTE {
        match (hex_digit_value(b0), hex_digit_value(b1)) {
            (Some(h), Some(l)) => {
                assert(h < 16 && l < 16);
                assert(((h * 16 + l) as u8 == sum) <==> (h == hi && l == lo));
            },
            _ => {},
        }
    }
}

/// The signature check, byte by byte: a path with no `.` is refused; where
/// `i` is the index of the last `.`, the path is accepted exactly when
/// `i >= 3` and the two bytes before the `.` spell, in hexadecimal, the
/// CRC-8 of the bytes before them. A path whose pair of digits differs from
/// that checksum is refused.
pub proof fn lemma_signature_check_exact(b: Seq<u8>)
    ensures
        (forall|j: int| 0 <= j < b.len() ==> b[j] != DOT_BYTE) ==> !spec_guessed_as_protected(b),
        forall|i: int|
            #[trigger] is_last_dot(b, i) ==> (spec_guessed_as_protected(b) <==> i >= 3
                && signature_digits_match(b[i - 2], b[i - 1], crc8_maxim_dow(b.subrange(0, i - 2)))),
{
    lemma_last_index_of_exact(b, DOT_BYTE);
    if (forall|j: int| 0 <= j < b.len() ==> b[j] != DOT_BYTE) {
        if let Some(i) = last_index_of(b, DOT_BYTE) {
            assert(b[i] == DOT_BYTE);
        }
    }
    assert forall|i: int| #[trigger] is_last_dot(b, i) implies (spec_guessed_as_protected(b) <==> i
        >= 3 && signature_digits_match(b[i - 2], b[i - 1], crc8_maxim_dow(b.subrange(0, i - 2)))) by {
        match last_index_of(b, DOT_BYTE) {
            Some(k) => {
                if k < i {
                    assert(b[i] != DOT_BYTE);
                } else if i < k {
                    assert(b[k] != DOT_BYTE);
                }
                assert(k == i);
                if i >= 3 {
                    lemma_hex_pair_spells(b[i - 2], b[i - 1], crc8_maxim_dow(b.subrange(0, i - 2)));
                }
            },
            None => {
                assert(b[i] != DOT_BYTE);
            },
        }
    }
}

/// The extensions of the pool are non-empty, lower-case ASCII, without `.`.
proof fn lemma_extension_pool_members(e: Seq<char>)
    requires
        extension_pool().contains(e),
    ensures
        e.len() > 0,
        forall|j: int| 0 <= j < e.len() ==> 'a' <= #[trigger] e[j] <= 'z',
        forall|j: int| 0 <= j < ascii_bytes(e).len() ==> #[trigger] ascii_bytes(e)[j] != DOT_BYTE,
{
    crate::random::lemma_extension_pool_lowercase();
    let k = choose|k: int| 0 <= k < extension_pool().len() && extension_pool()[k] == e;
    assert(extension_pool()[k] == e);
}

#[verifier::external_type_specification]
#[verifier::external_body]
pub struct ExSystemTime(SystemTime);

/// What `t.duration_since(UNIX_EPOCH)` gives: the time elapsed since the
/// epoch, or `None` where `t` lies before it.
pub uninterp spec fn epoch_offset(t: SystemTime) -> Option<Duration>;

/// The whole nanoseconds of a duration, as `Duration::as_nanos` gives them.
pub uninterp spec fn duration_nanos(d: Duration) -> u128;

/// Nanoseconds in a millisecond.
pub const NANOS_IN_MILLI: u128 = 1_000_000;

/// `SystemTime::duration_since(UNIX_EPOCH)`, its error dropped. Claimed: the
/// result is the one named `epoch_offset`.
#[verifier::external_body]
fn since_unix_epoch(t: SystemTime) -> (r: Option<Duration>)
    ensures
        r == epoch_offset(t),
{
    t.duration_since(std::time::UNIX_EPOCH).ok()
}

/// `Duration::as_millis`. Claimed, as its documentation says: the whole
/// milliseconds of the duration, that is its nanoseconds (named
/// `duration_nanos`) divided by a million.
#[verifier::external_body]
fn duration_as_millis(d: Duration) -> (r: u128)
    ensures
        r == duration_nanos(d) / NANOS_IN_MILLI,
{
    d.as_millis()
}

/// `Duration::from_millis`. Claimed, as its documentation says: a duration
/// of `ms` milliseconds, that is `ms` million nanoseconds.
#[verifier::external_body]
fn duration_from_millis(ms: u64) -> (r: Duration)
    ensures
        duration_nanos(r) == ms * NANOS_IN_MILLI,
{
    Duration::from_millis(ms)
}

/// `UNIX_EPOCH.checked_add(d)`. Claimed: where the platform represents the
/// time and `d` is a whole number of milliseconds, the time lies exactly `d`
/// after the epoch; a millisecond is a whole number of ticks on every
/// platform. Finer durations may be cut to the platform's tick, and which
/// times a platform represents differs between platforms: both are left
/// open.
#[verifier::external_body]
fn unix_epoch_checked_add(d: Duration) -> (r: Option<SystemTime>)
    ensures
        r matches Some(t) ==> (duration_nanos(d) % NANOS_IN_MILLI == 0 ==> (epoch_offset(t) matches Some(o) && duration_nanos(o) == duration_nanos(d))),
{
    std::time::UNIX_EPOCH.checked_add(d)
}

/// `t` as whole milliseconds since the epoch, wrapped to 64 bits. `t` must
/// not lie before the epoch.
pub fn into_epoch(t: SystemTime) -> (r: u64)
    requires
        epoch_offset(t) is Some,
    ensures
        r == (duration_nanos(epoch_offset(t).unwrap()) / NANOS_IN_MILLI) as u64,
{
    let d = since_unix_epoch(t).unwrap();
    duration_as_millis(d) as u64
}

/// `into_epoch` where `t` does not lie before the epoch, `None` where it does.
pub fn try_into_epoch(t: SystemTime) -> (r: Option<u64>)
    ensures
        r is None <==> epoch_offset(t) is None,
        r matches Some(ms) ==> ms == (duration_nanos(epoch_offset(t).unwrap()) / NANOS_IN_MILLI) as u64,
{
    match since_unix_epoch(t) {
        Some(_) => Some(into_epoch(t)),
        None => None,
    }
}

/// The time `from_epoch` milliseconds after the epoch, or `None` where the
/// platform cannot represent it (adding to a `SystemTime` past that range
/// panics). Reading it back with `into_epoch` gives `from_epoch`.
pub fn into_systime(from_epoch: u64) -> (r: Option<SystemTime>)
    ensures
        r matches Some(t) ==> (epoch_offset(t) matches Some(d) && duration_nanos(d) == from_epoch
            * NANOS_IN_MILLI),
        r matches Some(t) ==> (epoch_offset(t) matches Some(d) && (duration_nanos(d)
            / NANOS_IN_MILLI) as u64 == from_epoch),
{
    let d = duration_from_millis(from_epoch);
    let r = unix_epoch_checked_add(d);
    proof {
        let m = from_epoch as int;
        let n = NANOS_IN_MILLI as int;
        assert((m * n) / n == m) by (nonlinear_arith)
            requires n > 0;
        assert((m * n) % n == 0) by (nonlinear_arith)
            requires n > 0;
    }
    r
}

/// Going to whole milliseconds and back cuts a time down to the millisecond:
/// where `t` lies at most `u64::MAX` milliseconds after the epoch and `r` is
/// `into_systime(into_epoch(t))`, `r` is not later than `t` and less than a
/// millisecond earlier.
pub proof fn lemma_epoch_millis_truncation(t: SystemTime, r: SystemTime)
    requires
        epoch_offset(t) is Some,
        duration_nanos(epoch_offset(t).unwrap()) / NANOS_IN_MILLI <= u64::MAX,
        epoch_offset(r) is Some,
        duration_nanos(epoch_offset(r).unwrap()) == ((duration_nanos(epoch_offset(t).unwrap())
            / NANOS_IN_MILLI) as u64) * NANOS_IN_MILLI,
    ensures
        duration_nanos(epoch_offset(r).unwrap()) <= duration_nanos(epoch_offset(t).unwrap()),
        duration_nanos(epoch_offset(t).unwrap()) < duration_nanos(epoch_offset(r).unwrap())
            + NANOS_IN_MILLI,
{
    let x = duration_nanos(epoch_offset(t).unwrap()) as int;
    let n = NANOS_IN_MILLI as int;
    vstd::arithmetic::div_mod::lemma_fundamental_div_mod(x, n);
    assert(((x / n) as u64) as int == x / n);
}

} // verus!
