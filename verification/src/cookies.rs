//! The `Cookie` request header read as a map from cookie names to values.
//!
//! The header is cut into `name=value` pieces: a piece starts where the
//! previous one ended, its name runs to the next `=` and its value from there
//! to the next `;` or `,`, which ends the piece. A piece with no `;` or `,`
//! after its `=` takes the rest of the header as its value. Names are trimmed
//! of surrounding whitespace, and in a last piece also of trailing `;`. When a
//! name occurs twice, the later value wins.
use vstd::prelude::*;
use vstd::string::StringSliceAdditionalSpecFns;
use vstd::utf8::*;

verus! {

broadcast use vstd::string::group_string_axioms;

/// The byte of `=` in ASCII.
const EQ_BYTE: u8 = 0x3d;

/// The byte of `;` in ASCII.
const SEMICOLON_BYTE: u8 = 0x3b;

/// The byte of `,` in ASCII.
const COMMA_BYTE: u8 = 0x2c;

/// Text that a header value can hold as a string: visible ASCII and tabs.
pub open spec fn is_header_text(s: Seq<char>) -> bool {
    forall|i: int| 0 <= i < s.len() ==> (' ' <= #[trigger] s[i] <= '~') || s[i] == '\t'
}

/// ASCII whitespace: tab, line feed, vertical tab, form feed, carriage
/// return and space.
pub open spec fn is_ascii_ws(c: char) -> bool {
    c == ' ' || c == '\t' || c == '\n' || c == '\x0B' || c == '\x0C' || c == '\r'
}

/// `s` without its leading whitespace.
pub open spec fn trim_start_ws(s: Seq<char>) -> Seq<char>
    decreases s.len(),
{
    if s.len() > 0 && is_ascii_ws(s[0]) {
        trim_start_ws(s.drop_first())
    } else {
        s
    }
}

/// `s` without its trailing whitespace.
pub open spec fn trim_end_ws(s: Seq<char>) -> Seq<char>
    decreases s.len(),
{
    if s.len() > 0 && is_ascii_ws(s.last()) {
        trim_end_ws(s.drop_last())
    } else {
        s
    }
}

/// `s` without leading and trailing whitespace.
pub open spec fn trim_ws(s: Seq<char>) -> Seq<char> {
    trim_end_ws(trim_start_ws(s))
}

/// `s` without its trailing `;`.
pub open spec fn trim_end_semicolons(s: Seq<char>) -> Seq<char>
    decreases s.len(),
{
    if s.len() > 0 && s.last() == ';' {
        trim_end_semicolons(s.drop_last())
    } else {
        s
    }
}

/// The first index at or after `from` that holds `=`.
pub open spec fn first_eq_from(c: Seq<char>, from: int) -> Option<int>
    decreases c.len() - from,
{
    if from < 0 || from >= c.len() {
        None
    } else if c[from] == '=' {
        Some(from)
    } else {
        first_eq_from(c, from + 1)
    }
}

/// The first index at or after `from` that holds `;` or `,`.
pub open spec fn first_sep_from(c: Seq<char>, from: int) -> Option<int>
    decreases c.len() - from,
{
    if from < 0 || from >= c.len() {
        None
    } else if c[from] == ';' || c[from] == ',' {
        Some(from)
    } else {
        first_sep_from(c, from + 1)
    }
}

pub proof fn lemma_first_eq_bounds(c: Seq<char>, from: int)
    ensures
        first_eq_from(c, from) matches Some(e) ==> 0 <= from <= e < c.len() && c[e] == '=',
    decreases c.len() - from,
{
    if 0 <= from < c.len() && c[from] != '=' {
        lemma_first_eq_bounds(c, from + 1);
    }
}

pub proof fn lemma_first_sep_bounds(c: Seq<char>, from: int)
    ensures
        first_sep_from(c, from) matches Some(k) ==> 0 <= from <= k < c.len() && (c[k] == ';'
            || c[k] == ','),
    decreases c.len() - from,
{
    if 0 <= from < c.len() && !(c[from] == ';' || c[from] == ',') {
        lemma_first_sep_bounds(c, from + 1);
    }
}

/// Trimming the start cuts off the leading whitespace and nothing more.
proof fn lemma_trim_start_ws_cut(s: Seq<char>) -> (a: int)
    ensures
        0 <= a <= s.len(),
        trim_start_ws(s) == s.subrange(a, s.len() as int),
        forall|j: int| 0 <= j < a ==> is_ascii_ws(#[trigger] s[j]),
        a < s.len() ==> !is_ascii_ws(s[a]),
    decreases s.len(),
{
    if s.len() > 0 && is_ascii_ws(s[0]) {
        let t = s.drop_first();
        let a1 = lemma_trim_start_ws_cut(t);
        assert(t.subrange(a1, t.len() as int) =~= s.subrange(a1 + 1, s.len() as int));
        assert forall|j: int| 0 <= j < a1 + 1 implies is_ascii_ws(#[trigger] s[j]) by {
            if j > 0 {
                assert(s[j] == t[j - 1]);
            }
        }
        a1 + 1
    } else {
        assert(s.subrange(0, s.len() as int) =~= s);
        0
    }
}

/// Trimming the end cuts off the trailing whitespace and nothing more.
proof fn lemma_trim_end_ws_cut(s: Seq<char>) -> (z: int)
    ensures
        0 <= z <= s.len(),
        trim_end_ws(s) == s.subrange(0, z),
        forall|j: int| z <= j < s.len() ==> is_ascii_ws(#[trigger] s[j]),
        z > 0 ==> !is_ascii_ws(s[z - 1]),
    decreases s.len(),
{
    if s.len() > 0 && is_ascii_ws(s.last()) {
        let t = s.drop_last();
        let z1 = lemma_trim_end_ws_cut(t);
        assert(t.subrange(0, z1) =~= s.subrange(0, z1));
        assert forall|j: int| z1 <= j < s.len() implies is_ascii_ws(#[trigger] s[j]) by {
            if j < t.len() {
                assert(s[j] == t[j]);
            }
        }
        z1
    } else {
        assert(s.subrange(0, s.len() as int) =~= s);
        s.len() as int
    }
}

/// Trimming removes whitespace only: `trim_ws(s)` is the stretch `s[a..z]`
/// of `s`, everything before `a` and from `z` on is ASCII whitespace, and
/// the stretch, where not empty, neither starts nor ends with whitespace.
/// Every other character of `s` is kept, in place.
pub proof fn lemma_trim_ws_cuts_whitespace_only(s: Seq<char>) -> (r: (int, int))
    ensures
        0 <= r.0 <= r.1 <= s.len(),
        trim_ws(s) == s.subrange(r.0, r.1),
        forall|j: int| 0 <= j < r.0 ==> is_ascii_ws(#[trigger] s[j]),
        forall|j: int| r.1 <= j < s.len() ==> is_ascii_ws(#[trigger] s[j]),
        r.0 < r.1 ==> !is_ascii_ws(s[r.0]) && !is_ascii_ws(s[r.1 - 1]),
{
    let a = lemma_trim_start_ws_cut(s);
    let t = s.subrange(a, s.len() as int);
    let z = lemma_trim_end_ws_cut(t);
    assert(t.subrange(0, z) =~= s.subrange(a, a + z));
    assert forall|j: int| a + z <= j < s.len() implies is_ascii_ws(#[trigger] s[j]) by {
        assert(s[j] == t[j - a]);
    }
    if z > 0 {
        assert(s[a] == t[0]);
        assert(s[a + z - 1] == t[z - 1]);
    }
    (a, a + z)
}

/// Whitespace around a name that neither starts nor ends with whitespace is
/// what trimming removes.
proof fn lemma_trim_ws_padded(lead: Seq<char>, name: Seq<char>, trail: Seq<char>)
    requires
        forall|j: int| 0 <= j < lead.len() ==> is_ascii_ws(#[trigger] lead[j]),
        forall|j: int| 0 <= j < trail.len() ==> is_ascii_ws(#[trigger] trail[j]),
        name.len() > 0 ==> !is_ascii_ws(name[0]) && !is_ascii_ws(name.last()),
    ensures
        trim_ws(lead + name + trail) == name,
{
    let s = lead + name + trail;
    let l = lead.len() as int;
    let n = name.len() as int;
    let (a, z) = lemma_trim_ws_cuts_whitespace_only(s);
    assert forall|j: int| 0 <= j < l implies is_ascii_ws(#[trigger] s[j]) by {
        assert(s[j] == lead[j]);
    }
    assert forall|j: int| l + n <= j < s.len() implies is_ascii_ws(#[trigger] s[j]) by {
        assert(s[j] == trail[j - l - n]);
    }
    if n > 0 {
        assert(s[l] == name[0]);
        assert(s[l + n - 1] == name[n - 1]);
        assert(!is_ascii_ws(s[l]));
        assert(a <= l);
        assert(a < z);
        assert(a == l);
        assert(z >= l + n);
        assert(z == l + n);
        assert(s.subrange(a, z) =~= name);
    } else {
        assert forall|j: int| 0 <= j < s.len() implies is_ascii_ws(#[trigger] s[j]) by {
            if j < l {
                assert(s[j] == lead[j]);
            } else {
                assert(s[j] == trail[j - l]);
            }
        }
        if a < z {
            assert(is_ascii_ws(s[a]));
        }
        assert(s.subrange(a, z) =~= name);
    }
}

/// The first `=` at or after `from` is the one at `k` when none comes between.
proof fn lemma_first_eq_at(c: Seq<char>, from: int, k: int)
    requires
        0 <= from <= k < c.len(),
        c[k] == '=',
        forall|j: int| from <= j < k ==> c[j] != '=',
    ensures
        first_eq_from(c, from) == Some(k),
    decreases k - from,
{
    if from < k {
        lemma_first_eq_at(c, from + 1, k);
    }
}

/// There is no `;` or `,` at or after `from` when none stands there.
proof fn lemma_no_sep_from(c: Seq<char>, from: int)
    requires
        0 <= from,
        forall|j: int| from <= j < c.len() ==> c[j] != ';' && c[j] != ',',
    ensures
        first_sep_from(c, from) is None,
    decreases c.len() - from,
{
    if from < c.len() {
        lemma_no_sep_from(c, from + 1);
    }
}

/// A header that holds one cookie `name=value`, whose name, possibly with
/// whitespace around it, has no `=`, neither starts nor ends with whitespace
/// and does not end in `;`, and whose value has no `;` or `,`, reads as that
/// one cookie under exactly that name.
pub proof fn lemma_single_cookie(lead: Seq<char>, name: Seq<char>, trail: Seq<char>, value: Seq<char>)
    requires
        forall|j: int| 0 <= j < lead.len() ==> is_ascii_ws(#[trigger] lead[j]),
        forall|j: int| 0 <= j < trail.len() ==> is_ascii_ws(#[trigger] trail[j]),
        forall|j: int| 0 <= j < name.len() ==> #[trigger] name[j] != '=',
        name.len() > 0 ==> !is_ascii_ws(name[0]) && !is_ascii_ws(name.last()) && name.last()
            != ';',
        forall|j: int| 0 <= j < value.len() ==> #[trigger] value[j] != ';' && value[j] != ',',
    ensures
        parse_cookies_spec(lead + name + trail + seq!['='] + value) == map![name => value],
{
    let nm = lead + name + trail;
    let c = lead + name + trail + seq!['='] + value;
    let e = nm.len() as int;
    assert forall|j: int| 0 <= j < e implies c[j] != '=' by {
        assert(c[j] == nm[j]);
        if j < lead.len() {
            assert(nm[j] == lead[j]);
        } else if j < lead.len() + name.len() {
            assert(nm[j] == name[j - lead.len()]);
        } else {
            assert(nm[j] == trail[j - lead.len() - name.len()]);
        }
    }
    lemma_first_eq_at(c, 0, e);
    assert forall|j: int| e + 1 <= j < c.len() implies c[j] != ';' && c[j] != ',' by {
        assert(c[j] == value[j - e - 1]);
    }
    lemma_no_sep_from(c, e + 1);
    assert(c.subrange(0, e) =~= nm);
    assert(c.subrange(e + 1, c.len() as int) =~= value);
    lemma_trim_ws_padded(lead, name, trail);
    assert(trim_end_semicolons(name) == name);
    assert(cookie_pairs(c, 0) =~= seq![(name, value)]);
    let pairs = seq![(name, value)];
    assert(pairs.drop_last() =~= Seq::<(Seq<char>, Seq<char>)>::empty());
    assert(pairs_to_map(Seq::<(Seq<char>, Seq<char>)>::empty()) == Map::<
        Seq<char>,
        Seq<char>,
    >::empty());
    assert(pairs_to_map(pairs) =~= map![name => value]);
}

/// The first `;` or `,` at or after `from` is the one at `k` when none comes
/// between.
proof fn lemma_first_sep_at(c: Seq<char>, from: int, k: int)
    requires
        0 <= from <= k < c.len(),
        c[k] == ';' || c[k] == ',',
        forall|j: int| from <= j < k ==> c[j] != ';' && c[j] != ',',
    ensures
        first_sep_from(c, from) == Some(k),
    decreases k - from,
{
    if from < k {
        lemma_first_sep_at(c, from + 1, k);
    }
}

/// A header that opens with the piece `name=value` and a `;` or `,`, where the
/// name, possibly with whitespace around it, has no `=` and neither starts
/// nor ends with whitespace, and the value has no `;` or `,`, reads first as
/// the cookie `name` with `value`, under exactly that name; the pieces after
/// it are read from the rest.
pub proof fn lemma_leading_cookie(
    lead: Seq<char>,
    name: Seq<char>,
    trail: Seq<char>,
    value: Seq<char>,
    sep: char,
    rest: Seq<char>,
)
    requires
        forall|j: int| 0 <= j < lead.len() ==> is_ascii_ws(#[trigger] lead[j]),
        forall|j: int| 0 <= j < trail.len() ==> is_ascii_ws(#[trigger] trail[j]),
        forall|j: int| 0 <= j < name.len() ==> #[trigger] name[j] != '=',
        name.len() > 0 ==> !is_ascii_ws(name[0]) && !is_ascii_ws(name.last()),
        forall|j: int| 0 <= j < value.len() ==> #[trigger] value[j] != ';' && value[j] != ',',
        sep == ';' || sep == ',',
    ensures
        cookie_pairs(lead + name + trail + seq!['='] + value + seq![sep] + rest, 0) == seq![
            (name, value),
        ] + cookie_pairs(
            lead + name + trail + seq!['='] + value + seq![sep] + rest,
            (lead.len() + name.len() + trail.len() + value.len() + 2) as int,
        ),
{
    let nm = lead + name + trail;
    let c = lead + name + trail + seq!['='] + value + seq![sep] + rest;
    let e = nm.len() as int;
    let k = e + 1 + value.len();
    assert forall|j: int| 0 <= j < e implies c[j] != '=' by {
        assert(c[j] == nm[j]);
        if j < lead.len() {
            assert(nm[j] == lead[j]);
        } else if j < lead.len() + name.len() {
            assert(nm[j] == name[j - lead.len()]);
        } else {
            assert(nm[j] == trail[j - lead.len() - name.len()]);
        }
    }
    lemma_first_eq_at(c, 0, e);
    assert forall|j: int| e + 1 <= j < k implies c[j] != ';' && c[j] != ',' by {
        assert(c[j] == value[j - e - 1]);
    }
    assert(c[k] == sep);
    lemma_first_sep_at(c, e + 1, k);
    assert(c.subrange(0, e) =~= nm);
    assert(c.subrange(e + 1, k) =~= value);
    lemma_trim_ws_padded(lead, name, trail);
}

/// The `(name, value)` pieces of the header text `c` from position `from` on,
/// in order.
pub open spec fn cookie_pairs(c: Seq<char>, from: int) -> Seq<(Seq<char>, Seq<char>)>
    decreases c.len() - from,
{
    match first_eq_from(c, from) {
        None => seq![],
        Some(e) => match first_sep_from(c, e + 1) {
            Some(k) => {
                proof {
                    lemma_first_eq_bounds(c, from);
                    lemma_first_sep_bounds(c, e + 1);
                }
                seq![(trim_ws(c.subrange(from, e)), c.subrange(e + 1, k))] + cookie_pairs(
                    c,
                    k + 1,
                )
            },
            None => seq![
                (
                    trim_end_semicolons(trim_ws(c.subrange(from, e))),
                    c.subrange(e + 1, c.len() as int),
                ),
            ],
        },
    }
}

/// The map that inserting the pairs in order builds: a later pair replaces
/// an earlier one of the same name.
pub open spec fn pairs_to_map(pairs: Seq<(Seq<char>, Seq<char>)>) -> Map<Seq<char>, Seq<char>>
    decreases pairs.len(),
{
    if pairs.len() == 0 {
        Map::empty()
    } else {
        pairs_to_map(pairs.drop_last()).insert(pairs.last().0, pairs.last().1)
    }
}

/// The cookies of the header text `c`.
pub open spec fn parse_cookies_spec(c: Seq<char>) -> Map<Seq<char>, Seq<char>> {
    pairs_to_map(cookie_pairs(c, 0))
}

/// Looking for `=` from position `p.len() + j` of `p + r` is looking from
/// `j` in `r`.
proof fn lemma_first_eq_shift(p: Seq<char>, r: Seq<char>, j: int)
    requires
        0 <= j,
    ensures
        first_eq_from(p + r, p.len() + j) == (match first_eq_from(r, j) {
            Some(e) => Some(e + p.len()),
            None => None,
        }),
    decreases r.len() - j,
{
    if j < r.len() {
        assert((p + r)[p.len() + j] == r[j]);
        lemma_first_eq_shift(p, r, j + 1);
    }
}

/// Looking for `;` or `,` from position `p.len() + j` of `p + r` is looking
/// from `j` in `r`.
proof fn lemma_first_sep_shift(p: Seq<char>, r: Seq<char>, j: int)
    requires
        0 <= j,
    ensures
        first_sep_from(p + r, p.len() + j) == (match first_sep_from(r, j) {
            Some(k) => Some(k + p.len()),
            None => None,
        }),
    decreases r.len() - j,
{
    if j < r.len() {
        assert((p + r)[p.len() + j] == r[j]);
        lemma_first_sep_shift(p, r, j + 1);
    }
}

/// The pieces of `p + r` from position `p.len() + j` on are those of `r` from
/// `j` on.
proof fn lemma_cookie_pairs_shift(p: Seq<char>, r: Seq<char>, j: int)
    requires
        0 <= j,
    ensures
        cookie_pairs(p + r, p.len() + j) == cookie_pairs(r, j),
    decreases r.len() - j,
{
    let c = p + r;
    let o = p.len() as int;
    lemma_first_eq_shift(p, r, j);
    lemma_first_eq_bounds(r, j);
    match first_eq_from(r, j) {
        None => {},
        Some(e) => {
            lemma_first_sep_shift(p, r, e + 1);
            lemma_first_sep_bounds(r, e + 1);
            assert(c.subrange(o + j, o + e) =~= r.subrange(j, e));
            match first_sep_from(r, e + 1) {
                Some(k) => {
                    assert(c.subrange(o + e + 1, o + k) =~= r.subrange(e + 1, k));
                    lemma_cookie_pairs_shift(p, r, k + 1);
                },
                None => {
                    assert(c.subrange(o + e + 1, c.len() as int) =~= r.subrange(
                        e + 1,
                        r.len() as int,
                    ));
                },
            }
        },
    }
}

/// Reading the pair `x` before the pairs `t`: the later pairs win.
proof fn lemma_pairs_to_map_prepend(x: (Seq<char>, Seq<char>), t: Seq<(Seq<char>, Seq<char>)>)
    ensures
        pairs_to_map(seq![x] + t) == map![x.0 => x.1].union_prefer_right(pairs_to_map(t)),
    decreases t.len(),
{
    if t.len() == 0 {
        assert(seq![x] + t =~= seq![x]);
        assert(seq![x].drop_last() =~= Seq::<(Seq<char>, Seq<char>)>::empty());
        assert(pairs_to_map(Seq::<(Seq<char>, Seq<char>)>::empty()) == Map::<
            Seq<char>,
            Seq<char>,
        >::empty());
        assert(pairs_to_map(seq![x] + t) =~= map![x.0 => x.1].union_prefer_right(
            pairs_to_map(t),
        ));
    } else {
        assert((seq![x] + t).drop_last() =~= seq![x] + t.drop_last());
        lemma_pairs_to_map_prepend(x, t.drop_last());
        assert(pairs_to_map(seq![x] + t) =~= map![x.0 => x.1].union_prefer_right(
            pairs_to_map(t),
        ));
    }
}

/// A header that opens with the piece `name=value` and a `;` or `,`, where the
/// name, possibly with whitespace around it, has no `=` and neither starts
/// nor ends with whitespace, and the value has no `;` or `,`, holds the
/// cookies of the rest and, under exactly the name `name`, the value `value`
/// unless the rest sets that name again: the later value wins.
pub proof fn lemma_cookie_then_rest(
    lead: Seq<char>,
    name: Seq<char>,
    trail: Seq<char>,
    value: Seq<char>,
    sep: char,
    rest: Seq<char>,
)
    requires
        forall|j: int| 0 <= j < lead.len() ==> is_ascii_ws(#[trigger] lead[j]),
        forall|j: int| 0 <= j < trail.len() ==> is_ascii_ws(#[trigger] trail[j]),
        forall|j: int| 0 <= j < name.len() ==> #[trigger] name[j] != '=',
        name.len() > 0 ==> !is_ascii_ws(name[0]) && !is_ascii_ws(name.last()),
        forall|j: int| 0 <= j < value.len() ==> #[trigger] value[j] != ';' && value[j] != ',',
        sep == ';' || sep == ',',
    ensures
        parse_cookies_spec(lead + name + trail + seq!['='] + value + seq![sep] + rest)
            == map![name => value].union_prefer_right(parse_cookies_spec(rest)),
{
    let head = lead + name + trail + seq!['='] + value + seq![sep];
    lemma_leading_cookie(lead, name, trail, value, sep, rest);
    assert(head + rest =~= lead + name + trail + seq!['='] + value + seq![sep] + rest);
    lemma_cookie_pairs_shift(head, rest, 0);
    lemma_pairs_to_map_prepend((name, value), cookie_pairs(rest, 0));
}

/// Cookie names and values, in the order in which they were read.
pub struct CookieJar {
    pairs: Vec<(String, String)>,
}

/// The names and values of `pairs` as character sequences.
pub open spec fn pair_views(pairs: Seq<(String, String)>) -> Seq<(Seq<char>, Seq<char>)> {
    pairs.map_values(|p: (String, String)| (p.0@, p.1@))
}

impl View for CookieJar {
    type V = Map<Seq<char>, Seq<char>>;

    closed spec fn view(&self) -> Map<Seq<char>, Seq<char>> {
        pairs_to_map(pair_views(self.pairs@))
    }
}

/// In the map built from `s`, the entry of `k` is that of the last pair named
/// `k` among the first `i`, if it is not among the others.
proof fn lemma_pairs_to_map_suffix(s: Seq<(Seq<char>, Seq<char>)>, i: int, k: Seq<char>)
    requires
        0 <= i <= s.len(),
        forall|j: int| i <= j < s.len() ==> (#[trigger] s[j]).0 != k,
    ensures
        pairs_to_map(s).contains_key(k) == pairs_to_map(s.subrange(0, i)).contains_key(k),
        pairs_to_map(s).contains_key(k) ==> pairs_to_map(s)[k] == pairs_to_map(
            s.subrange(0, i),
        )[k],
    decreases s.len() - i,
{
    if i < s.len() {
        assert(s.drop_last() =~= s.subrange(0, s.len() - 1));
        let t = s.drop_last();
        assert forall|j: int| i <= j < t.len() implies (#[trigger] t[j]).0 != k by {
            assert(t[j] == s[j]);
        }
        lemma_pairs_to_map_suffix(t, i, k);
        assert(t.subrange(0, i) =~= s.subrange(0, i));
    } else {
        assert(s.subrange(0, i) =~= s);
    }
}

impl CookieJar {
    /// A jar with no cookies.
    pub fn new() -> (jar: Self)
        ensures
            jar@ == Map::<Seq<char>, Seq<char>>::empty(),
    {
        let jar = CookieJar { pairs: Vec::new() };
        assert(pair_views(jar.pairs@) =~= seq![]);
        jar
    }

    /// Sets the cookie `name` to `value`, replacing a value it had.
    pub fn insert(&mut self, name: String, value: String)
        ensures
            final(self)@ == old(self)@.insert(name@, value@),
    {
        let ghost before = pair_views(self.pairs@);
        self.pairs.push((name, value));
        assert(pair_views(self.pairs@).drop_last() =~= before);
    }

    /// The value of the cookie `name`.
    pub fn get(&self, name: &str) -> (r: Option<&String>)
        ensures
            r is Some <==> self@.contains_key(name@),
            r matches Some(v) ==> v@ == self@[name@],
    {
        let ghost s = pair_views(self.pairs@);
        let mut i = self.pairs.len();
        assert(s.subrange(0, i as int) =~= s);
        while i > 0
            invariant
                i <= self.pairs@.len(),
                s == pair_views(self.pairs@),
                forall|j: int| i <= j < s.len() ==> (#[trigger] s[j]).0 != name@,
            decreases i,
        {
            let key = self.pairs[i - 1].0.as_str();
            if str_equal(key, name) {
                proof {
                    lemma_pairs_to_map_suffix(s, i as int, name@);
                    let t = s.subrange(0, i as int);
                    assert(t.drop_last() =~= s.subrange(0, i - 1));
                }
                return Some(&self.pairs[i - 1].1);
            }
            i = i - 1;
        }
        proof {
            lemma_pairs_to_map_suffix(s, 0, name@);
        }
        None
    }

    /// The cookies in the order in which they were read; inserting them in
    /// this order into an empty map gives this jar.
    pub fn pairs(&self) -> (r: &Vec<(String, String)>)
        ensures
            pairs_to_map(pair_views(r@)) == self@,
    {
        &self.pairs
    }
}

/// Whether two strings hold the same characters.
pub fn str_equal(a: &str, b: &str) -> (r: bool)
    ensures
        r == (a@ == b@),
{
    let x = a.as_bytes();
    let y = b.as_bytes();
    proof {
        encode_utf8_decode_utf8(a@);
        encode_utf8_decode_utf8(b@);
    }
    if x.len() != y.len() {
        return false;
    }
    let mut i: usize = 0;
    while i < x.len()
        invariant
            x@ == a.spec_bytes(),
            y@ == b.spec_bytes(),
            x@.len() == y@.len(),
            i <= x@.len(),
            forall|j: int| 0 <= j < i ==> x@[j] == y@[j],
        decreases x@.len() - i,
    {
        if x[i] != y[i] {
            return false;
        }
        i = i + 1;
    }
    assert(x@ =~= y@);
    true
}

/// The bytes of header text are its characters.
proof fn lemma_header_bytes(text: &str)
    requires
        is_header_text(text@),
    ensures
        text.spec_bytes().len() == text@.len(),
        forall|i: int| 0 <= i < text@.len() ==> #[trigger] text.spec_bytes()[i] == text@[i] as u8,
        text.is_ascii(),
{
    assert(is_ascii_chars(text@));
    is_ascii_chars_encode_utf8(text@);
}

/// Whether the byte of a header text character is ASCII whitespace.
fn is_ws_byte(x: u8) -> (r: bool)
    ensures
        r == (x == 0x20 || x == 0x09 || x == 0x0a || x == 0x0b || x == 0x0c || x == 0x0d),
{
    x == 0x20 || x == 0x09 || x == 0x0a || x == 0x0b || x == 0x0c || x == 0x0d
}

/// The first `=` at or after `from`.
fn find_eq(text: &str, b: &[u8], from: usize) -> (r: Option<usize>)
    requires
        is_header_text(text@),
        b@ == text.spec_bytes(),
    ensures
        r is None <==> first_eq_from(text@, from as int) is None,
        r matches Some(e) ==> first_eq_from(text@, from as int) == Some(e as int),
{
    proof {
        lemma_header_bytes(text);
    }
    let ghost c = text@;
    let mut i = from;
    while i < b.len()
        invariant
            c == text@,
            b@.len() == c.len(),
            forall|j: int| 0 <= j < c.len() ==> #[trigger] b@[j] == c[j] as u8,
            is_header_text(c),
            from <= i,
            first_eq_from(c, from as int) == first_eq_from(c, i as int),
        decreases b@.len() - i,
    {
        if b[i] == EQ_BYTE {
            assert(c[i as int] as u8 == EQ_BYTE);
            assert(c[i as int] == '=');
            assert(first_eq_from(c, i as int) == Some(i as int));
            return Some(i);
        }
        assert(c[i as int] != '=');
        i = i + 1;
    }
    None
}

/// The first `;` or `,` at or after `from`.
fn find_sep(text: &str, b: &[u8], from: usize) -> (r: Option<usize>)
    requires
        is_header_text(text@),
        b@ == text.spec_bytes(),
    ensures
        r is None <==> first_sep_from(text@, from as int) is None,
        r matches Some(k) ==> first_sep_from(text@, from as int) == Some(k as int),
{
    proof {
        lemma_header_bytes(text);
    }
    let ghost c = text@;
    let mut i = from;
    while i < b.len()
        invariant
            c == text@,
            b@.len() == c.len(),
            forall|j: int| 0 <= j < c.len() ==> #[trigger] b@[j] == c[j] as u8,
            is_header_text(c),
            from <= i,
            first_sep_from(c, from as int) == first_sep_from(c, i as int),
        decreases b@.len() - i,
    {
        if b[i] == SEMICOLON_BYTE || b[i] == COMMA_BYTE {
            assert(c[i as int] as u8 == SEMICOLON_BYTE || c[i as int] as u8 == COMMA_BYTE);
            assert(c[i as int] == ';' || c[i as int] == ',');
            assert(first_sep_from(c, i as int) == Some(i as int));
            return Some(i);
        }
        assert(c[i as int] != ';' && c[i as int] != ',');
        i = i + 1;
    }
    None
}

/// The bounds of `text[lo..hi]` trimmed of surrounding whitespace.
fn trim_bounds(text: &str, b: &[u8], lo: usize, hi: usize) -> (r: (usize, usize))
    requires
        is_header_text(text@),
        b@ == text.spec_bytes(),
        lo <= hi <= text@.len(),
    ensures
        lo <= r.0 <= r.1 <= hi,
        text@.subrange(r.0 as int, r.1 as int) == trim_ws(text@.subrange(lo as int, hi as int)),
{
    proof {
        lemma_header_bytes(text);
    }
    let ghost c = text@;
    let mut a = lo;
    while a < hi && is_ws_byte(b[a])
        invariant
            b@.len() == c.len(),
            forall|j: int| 0 <= j < c.len() ==> #[trigger] b@[j] == c[j] as u8,
            is_header_text(c),
            lo <= a <= hi <= c.len(),
            trim_start_ws(c.subrange(lo as int, hi as int)) == trim_start_ws(
                c.subrange(a as int, hi as int),
            ),
        decreases hi - a,
    {
        assert(is_ascii_ws(c[a as int]));
        assert(c.subrange(a as int, hi as int).drop_first() =~= c.subrange(a + 1, hi as int));
        a = a + 1;
    }
    if a < hi {
        assert(!is_ascii_ws(c[a as int]));
    }
    assert(trim_start_ws(c.subrange(a as int, hi as int)) == c.subrange(a as int, hi as int));
    let mut z = hi;
    while z > a && is_ws_byte(b[z - 1])
        invariant
            b@.len() == c.len(),
            forall|j: int| 0 <= j < c.len() ==> #[trigger] b@[j] == c[j] as u8,
            is_header_text(c),
            lo <= a <= z <= hi <= c.len(),
            trim_end_ws(c.subrange(a as int, hi as int)) == trim_end_ws(
                c.subrange(a as int, z as int),
            ),
        decreases z,
    {
        assert(is_ascii_ws(c[z - 1]));
        assert(c.subrange(a as int, z as int).drop_last() =~= c.subrange(a as int, z - 1));
        z = z - 1;
    }
    if z > a {
        assert(!is_ascii_ws(c[z - 1]));
    }
    assert(trim_end_ws(c.subrange(a as int, z as int)) == c.subrange(a as int, z as int));
    (a, z)
}

/// The end of `text[lo..hi]` once trailing `;` are cut off.
fn trim_semicolons_end(text: &str, b: &[u8], lo: usize, hi: usize) -> (r: usize)
    requires
        is_header_text(text@),
        b@ == text.spec_bytes(),
        lo <= hi <= text@.len(),
    ensures
        lo <= r <= hi,
        text@.subrange(lo as int, r as int) == trim_end_semicolons(
            text@.subrange(lo as int, hi as int),
        ),
{
    proof {
        lemma_header_bytes(text);
    }
    let ghost c = text@;
    let mut z = hi;
    while z > lo && b[z - 1] == SEMICOLON_BYTE
        invariant
            b@.len() == c.len(),
            forall|j: int| 0 <= j < c.len() ==> #[trigger] b@[j] == c[j] as u8,
            is_header_text(c),
            lo <= z <= hi <= c.len(),
            trim_end_semicolons(c.subrange(lo as int, hi as int)) == trim_end_semicolons(
                c.subrange(lo as int, z as int),
            ),
        decreases z,
    {
        assert(c[z - 1] == ';');
        assert(c.subrange(lo as int, z as int).drop_last() =~= c.subrange(lo as int, z - 1));
        z = z - 1;
    }
    if z > lo {
        assert(c[z - 1] != ';');
    }
    z
}

/// An owned copy of `text[lo..hi]`.
fn owned_slice(text: &str, lo: usize, hi: usize) -> (r: String)
    requires
        text.is_ascii(),
        lo <= hi <= text@.len(),
    ensures
        r@ == text@.subrange(lo as int, hi as int),
{
    text.substring_ascii(lo, hi).to_owned()
}

/// The cookies of a `Cookie` header that reads `text`.
pub fn parse_cookie_header(text: &str) -> (jar: CookieJar)
    requires
        is_header_text(text@),
    ensures
        jar@ == parse_cookies_spec(text@),
{
    proof {
        lemma_header_bytes(text);
    }
    let ghost c = text@;
    let b = text.as_bytes();
    let n = b.len();
    let mut jar = CookieJar { pairs: Vec::new() };
    let mut p: usize = 0;
    let ghost mut done: Seq<(Seq<char>, Seq<char>)> = seq![];
    assert(done + cookie_pairs(c, 0) =~= cookie_pairs(c, 0));
    loop
        invariant_except_break
            p <= c.len(),
            cookie_pairs(c, 0) == done + cookie_pairs(c, p as int),
        invariant
            c == text@,
            is_header_text(c),
            text.is_ascii(),
            b@ == text.spec_bytes(),
            b@.len() == c.len(),
            n == b@.len(),
            pair_views(jar.pairs@) == done,
        ensures
            cookie_pairs(c, 0) == done,
        decreases c.len() - p,
    {
        proof {
            lemma_first_eq_bounds(c, p as int);
        }
        match find_eq(text, b, p) {
            None => {
                assert(cookie_pairs(c, p as int) =~= seq![]);
                assert(done + seq![] =~= done);
                break ;
            },
            Some(e) => {
                assert(e < c.len());
                proof {
                    lemma_first_sep_bounds(c, e + 1);
                }
                let (klo, khi) = trim_bounds(text, b, p, e);
                match find_sep(text, b, e + 1) {
                    Some(k) => {
                        assert(k < c.len());
                        let name = owned_slice(text, klo, khi);
                        let value = owned_slice(text, e + 1, k);
                        let ghost piece = (name@, value@);
                        jar.pairs.push((name, value));
                        proof {
                            assert(cookie_pairs(c, p as int) =~= seq![piece] + cookie_pairs(
                                c,
                                k + 1,
                            ));
                            assert(done + seq![piece] + cookie_pairs(c, k + 1) =~= done + (seq![
                                piece,
                            ] + cookie_pairs(c, k + 1)));
                            done = done + seq![piece];
                            assert(pair_views(jar.pairs@) =~= done);
                        }
                        p = k + 1;
                    },
                    None => {
                        let kend = trim_semicolons_end(text, b, klo, khi);
                        assert(c.subrange(klo as int, kend as int) =~= c.subrange(
                            klo as int,
                            khi as int,
                        ).subrange(0, kend - klo));
                        let name = owned_slice(text, klo, kend);
                        let value = owned_slice(text, e + 1, n);
                        let ghost piece = (name@, value@);
                        jar.pairs.push((name, value));
                        proof {
                            assert(cookie_pairs(c, p as int) =~= seq![piece]);
                            done = done + seq![piece];
                            assert(pair_views(jar.pairs@) =~= done);
                        }
                        break ;
                    },
                }
            },
        }
    }
    jar
}

} // verus!
