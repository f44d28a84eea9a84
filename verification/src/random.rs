//! Random names, paths and file extensions used to disguise protected
//! resources.
use rand::rngs::{OsRng, StdRng, ThreadRng};
use vstd::prelude::*;

verus! {

broadcast use vstd::string::group_string_axioms;

#[verifier::external_type_specification]
#[verifier::external_body]
pub struct ExThreadRng(ThreadRng);

#[verifier::external_type_specification]
#[verifier::external_body]
pub struct ExStdRng(StdRng);

#[verifier::external_type_specification]
#[verifier::external_body]
pub struct ExOsRng(OsRng);

/// A letter of the Latin alphabet or an underscore: what may open a CSS
/// class or id name.
pub open spec fn is_name_head_char(c: char) -> bool {
    ('A' <= c <= 'Z') || ('a' <= c <= 'z') || c == '_'
}

/// A letter, a decimal digit or an underscore.
pub open spec fn is_name_tail_char(c: char) -> bool {
    is_name_head_char(c) || ('0' <= c <= '9')
}

/// A letter other than `D` and `d`, or an underscore: the characters of a
/// random path.
pub open spec fn is_path_char(c: char) -> bool {
    ('A' <= c <= 'Z' && c != 'D') || ('a' <= c <= 'z' && c != 'd') || c == '_'
}

/// Eleven characters: one that may open a name, then ten letters, digits or
/// underscores.
pub open spec fn is_generated_name(s: Seq<char>) -> bool {
    &&& s.len() == 11
    &&& is_name_head_char(s[0])
    &&& forall|i: int| 1 <= i < 11 ==> is_name_tail_char(#[trigger] s[i])
}

/// `s` is made of `n` units, each an optional `/`, an optional `.` and one
/// path character, in this order. Read from the back, so that a unit is
/// recognised by its path character.
pub open spec fn path_units(s: Seq<char>, n: nat) -> bool
    decreases n,
{
    if n == 0 {
        s.len() == 0
    } else {
        &&& s.len() > 0
        &&& is_path_char(s.last())
        &&& {
            let s1 = s.drop_last();
            let s2 = if s1.len() > 0 && s1.last() == '.' {
                s1.drop_last()
            } else {
                s1
            };
            let s3 = if s2.len() > 0 && s2.last() == '/' {
                s2.drop_last()
            } else {
                s2
            };
            path_units(s3, (n - 1) as nat)
        }
    }
}

/// What `gen_path` can return: a path character, between eight and
/// twenty-seven units, and a closing path character.
pub open spec fn is_random_path(s: Seq<char>) -> bool {
    &&& s.len() >= 2
    &&& is_path_char(s[0])
    &&& is_path_char(s.last())
    &&& exists|n: nat| 8 <= n < 28 && #[trigger] path_units(s.subrange(1, s.len() - 1), n)
}

/// The file extensions that protected paths end with.
pub open spec fn extension_pool() -> Seq<Seq<char>> {
    seq![
        "avif"@, "pdf"@, "ps"@, "class"@, "pict"@, "webp"@, "eps"@, "pls"@, "csv"@, "mid"@,
        "doc"@, "midi"@, "ppt"@, "tif"@, "xls"@, "docx"@, "jar"@, "pptx"@, "tiff"@, "xlsx"@,
    ]
}

/// Every extension of the pool is a non-empty run of lower-case ASCII letters.
pub proof fn lemma_extension_pool_lowercase()
    ensures
        forall|i: int, j: int|
            0 <= i < extension_pool().len() && 0 <= j < extension_pool()[i].len() ==> 'a'
                <= #[trigger] extension_pool()[i][j] <= 'z',
        forall|i: int| 0 <= i < extension_pool().len() ==> #[trigger] extension_pool()[i].len() > 0,
{
    reveal_strlit("avif");
    reveal_strlit("pdf");
    reveal_strlit("ps");
    reveal_strlit("class");
    reveal_strlit("pict");
    reveal_strlit("webp");
    reveal_strlit("eps");
    reveal_strlit("pls");
    reveal_strlit("csv");
    reveal_strlit("mid");
    reveal_strlit("doc");
    reveal_strlit("midi");
    reveal_strlit("ppt");
    reveal_strlit("tif");
    reveal_strlit("xls");
    reveal_strlit("docx");
    reveal_strlit("jar");
    reveal_strlit("pptx");
    reveal_strlit("tiff");
    reveal_strlit("xlsx");
}

/// Appending one unit to `n` units gives `n + 1` units.
proof fn lemma_path_units_push(body: Seq<char>, n: nat, unit: Seq<char>)
    requires
        path_units(body, n),
        unit.len() >= 1,
        is_path_char(unit.last()),
        unit.len() == 1 || (unit.len() == 2 && (unit[0] == '/' || unit[0] == '.')) || (unit.len()
            == 3 && unit[0] == '/' && unit[1] == '.'),
    ensures
        path_units(body + unit, n + 1),
{
    let s = body + unit;
    let s1 = s.drop_last();
    assert(s.last() == unit.last());
    assert(s1 =~= body + unit.drop_last());
    if n > 0 {
        assert(body.len() > 0 && is_path_char(body.last()));
    }
    if unit.len() == 1 {
        assert(s1 =~= body);
    } else if unit.len() == 2 && unit[0] == '.' {
        assert(s1.drop_last() =~= body);
    } else if unit.len() == 2 {
        assert(s1.drop_last() =~= body);
    } else {
        assert(s1.drop_last() =~= body + seq![unit[0]]);
        assert(s1.drop_last().drop_last() =~= body);
    }
}

/// The one-character string at position `k` of `set`.
fn char_at(set: &str, k: usize) -> (s: &str)
    requires
        set.is_ascii(),
        k < set@.len(),
        set@.len() < usize::MAX,
    ensures
        s@ == seq![set@[k as int]],
{
    let s = set.substring_ascii(k, k + 1);
    assert(s@ =~= seq![set@[k as int]]);
    s
}

/// `rand::Rng::gen_range` over `low..high` on the thread-local generator.
/// Claimed: the result lies in `low..high`; it panics on an empty range,
/// which `requires` rules out. Which value comes out is left open.
#[verifier::external_body]
fn thread_rng_gen_range(rng: &mut ThreadRng, low: usize, high: usize) -> (r: usize)
    requires
        low < high,
    ensures
        low <= r < high,
{
    rand::Rng::gen_range(rng, low..high)
}

/// `rand::Rng::gen_range` over `low..high` on a `StdRng`. Claimed: the result
/// lies in `low..high`; the range must not be empty.
#[verifier::external_body]
fn std_rng_gen_range(rng: &mut StdRng, low: usize, high: usize) -> (r: usize)
    requires
        low < high,
    ensures
        low <= r < high,
{
    rand::Rng::gen_range(rng, low..high)
}

/// `rand::Rng::gen_range` over `low..high` on the operating system's
/// generator. Claimed: the result lies in `low..high`; the range must not be
/// empty.
#[verifier::external_body]
fn os_rng_gen_range(rng: &mut OsRng, low: usize, high: usize) -> (r: usize)
    requires
        low < high,
    ensures
        low <= r < high,
{
    rand::Rng::gen_range(rng, low..high)
}

/// `rand::Rng::gen_range` over `low..high` of `i32` on the thread-local
/// generator. Claimed: the result lies in `low..high`; the range must not be
/// empty.
#[verifier::external_body]
fn thread_rng_gen_range_i32(rng: &mut ThreadRng, low: i32, high: i32) -> (r: i32)
    requires
        low < high,
    ensures
        low <= r < high,
{
    rand::Rng::gen_range(rng, low..high)
}

/// `rand::Rng::gen_range` over `low..high` of `i32` on a `StdRng`. Claimed:
/// the result lies in `low..high`; the range must not be empty.
#[verifier::external_body]
fn std_rng_gen_range_i32(rng: &mut StdRng, low: i32, high: i32) -> (r: i32)
    requires
        low < high,
    ensures
        low <= r < high,
{
    rand::Rng::gen_range(rng, low..high)
}

/// `rand::Rng::gen_range` over `low..high` of `i32` on the operating
/// system's generator. Claimed: the result lies in `low..high`; the range
/// must not be empty.
#[verifier::external_body]
fn os_rng_gen_range_i32(rng: &mut OsRng, low: i32, high: i32) -> (r: i32)
    requires
        low < high,
    ensures
        low <= r < high,
{
    rand::Rng::gen_range(rng, low..high)
}

/// `rand::thread_rng`: a handle on the thread-local generator. Nothing is
/// claimed of it.
#[verifier::external_body]
pub(crate) fn fresh_thread_rng() -> ThreadRng {
    rand::thread_rng()
}

/// The characters that may open a name, in the order they are drawn from.
pub open spec fn name_head_charset() -> Seq<char> {
    "ABCDEFGHIJKLMNOPQRSTUVWXYZabcdefghijklmnopqrstuvwxyz_"@
}

/// The characters that may follow in a name, in the order they are drawn
/// from.
pub open spec fn name_tail_charset() -> Seq<char> {
    "ABCDEFGHIJKLMNOPQRSTUVWXYZabcdefghijklmnopqrstuvwxyz0123456789_"@
}

/// The characters of a random path, in the order they are drawn from.
pub open spec fn path_charset() -> Seq<char> {
    "ABCEFGHIJKLMNOPQRSTUVWXYZabcefghijklmnopqrstuvwxyz_"@
}

/// The name that the draws `head` (in `0..53`) and `tail` (ten draws in
/// `0..63`) pick.
pub open spec fn name_from_draws(head: usize, tail: Seq<usize>) -> Seq<char> {
    seq![name_head_charset()[head as int]] + Seq::new(
        tail.len(),
        |i: int| name_tail_charset()[tail[i] as int],
    )
}

/// The characters of one path unit: a `/` where the first draw is 0, a `.`
/// where the second draw is 1, and the path character the third draw picks.
pub open spec fn unit_chars(u: (i32, i32, usize)) -> Seq<char> {
    (if u.0 == 0 {
        seq!['/']
    } else {
        Seq::<char>::empty()
    }) + (if u.1 == 1 {
        seq!['.']
    } else {
        Seq::<char>::empty()
    }) + seq![path_charset()[u.2 as int]]
}

/// The characters of the units, in order.
pub open spec fn units_chars(units: Seq<(i32, i32, usize)>) -> Seq<char>
    decreases units.len(),
{
    if units.len() == 0 {
        Seq::empty()
    } else {
        units_chars(units.drop_last()) + unit_chars(units.last())
    }
}

/// The path that the draws pick: the character of `first`, the units, and
/// the character of `last`.
pub open spec fn path_from_draws_spec(
    first: usize,
    units: Seq<(i32, i32, usize)>,
    last: usize,
) -> Seq<char> {
    seq![path_charset()[first as int]] + units_chars(units) + seq![path_charset()[last as int]]
}

/// The extension that the draw `i` (in `0..20`) picks.
pub fn ext_at(i: usize) -> (r: &'static str)
    requires
        i < 20,
    ensures
        r@ == extension_pool()[i as int],
{
    if i == 0 {
        "avif"
    } else if i == 1 {
        "pdf"
    } else if i == 2 {
        "ps"
    } else if i == 3 {
        "class"
    } else if i == 4 {
        "pict"
    } else if i == 5 {
        "webp"
    } else if i == 6 {
        "eps"
    } else if i == 7 {
        "pls"
    } else if i == 8 {
        "csv"
    } else if i == 9 {
        "mid"
    } else if i == 10 {
        "doc"
    } else if i == 11 {
        "midi"
    } else if i == 12 {
        "ppt"
    } else if i == 13 {
        "tif"
    } else if i == 14 {
        "xls"
    } else if i == 15 {
        "docx"
    } else if i == 16 {
        "jar"
    } else if i == 17 {
        "pptx"
    } else if i == 18 {
        "tiff"
    } else {
        "xlsx"
    }
}

/// The name that the draws `head` and `tail` pick: the `head`-th character
/// that may open a name, then the characters the ten `tail` draws pick.
pub fn name_from_indices(head: usize, tail: &Vec<usize>) -> (r: String)
    requires
        head < 53,
        tail@.len() == 10,
        forall|i: int| 0 <= i < 10 ==> #[trigger] tail@[i] < 63,
    ensures
        r@ == name_from_draws(head, tail@),
        is_generated_name(r@),
{
    let charset0 = "ABCDEFGHIJKLMNOPQRSTUVWXYZabcdefghijklmnopqrstuvwxyz_";
    let charset1 = "ABCDEFGHIJKLMNOPQRSTUVWXYZabcdefghijklmnopqrstuvwxyz0123456789_";
    proof {
        reveal_strlit("ABCDEFGHIJKLMNOPQRSTUVWXYZabcdefghijklmnopqrstuvwxyz_");
        reveal_strlit("ABCDEFGHIJKLMNOPQRSTUVWXYZabcdefghijklmnopqrstuvwxyz0123456789_");
    }
    assert(charset0.is_ascii() && charset1.is_ascii());
    assert(forall|j: int| 0 <= j < charset0@.len() ==> is_name_head_char(#[trigger] charset0@[j]));
    assert(forall|j: int| 0 <= j < charset1@.len() ==> is_name_tail_char(#[trigger] charset1@[j]));
    let mut result = String::new();
    result.append(char_at(charset0, head));
    let mut i: usize = 0;
    while i < 10
        invariant
            i <= 10,
            tail@.len() == 10,
            forall|k: int| 0 <= k < 10 ==> #[trigger] tail@[k] < 63,
            charset1.is_ascii(),
            charset1@ == name_tail_charset(),
            charset1@.len() == 63,
            forall|j: int| 0 <= j < charset1@.len() ==> is_name_tail_char(#[trigger] charset1@[j]),
            result@ =~= seq![name_head_charset()[head as int]] + Seq::new(
                i as nat,
                |k: int| name_tail_charset()[tail@[k] as int],
            ),
            is_name_head_char(result@[0]),
        decreases 10 - i,
    {
        result.append(char_at(charset1, tail[i]));
        i = i + 1;
    }
    assert(forall|j: int| 1 <= j < result@.len() ==> #[trigger] result@[j] == name_tail_charset()[tail@[j - 1] as int]);
    result
}

/// Appending one more unit.
proof fn lemma_units_chars_push(units: Seq<(i32, i32, usize)>, u: (i32, i32, usize))
    ensures
        units_chars(units.push(u)) == units_chars(units) + unit_chars(u),
{
    assert(units.push(u).drop_last() =~= units);
}

/// The path that the draws pick: the `first`-th path character, for each
/// unit an optional `/` and `.` and the path character it picks, and the
/// `last`-th path character. (A check, between units, for a path that ends in
/// `/` never fires: every unit ends with a path character.)
pub fn path_from_draws(first: usize, units: &Vec<(i32, i32, usize)>, last: usize) -> (r: String)
    requires
        first < 51,
        last < 51,
        forall|i: int| 0 <= i < units@.len() ==> (#[trigger] units@[i]).2 < 51,
    ensures
        r@ == path_from_draws_spec(first, units@, last),
        8 <= units@.len() < 28 ==> is_random_path(r@),
{
    let charset = "ABCEFGHIJKLMNOPQRSTUVWXYZabcefghijklmnopqrstuvwxyz_";
    proof {
        reveal_strlit("ABCEFGHIJKLMNOPQRSTUVWXYZabcefghijklmnopqrstuvwxyz_");
        reveal_strlit("/");
        reveal_strlit(".");
    }
    assert(forall|j: int| 0 <= j < charset@.len() ==> is_path_char(#[trigger] charset@[j]));
    assert(charset.is_ascii());
    let mut result = String::new();
    result.append(char_at(charset, first));
    let mut i: usize = 0;
    assert(units@.subrange(0, 0) =~= Seq::<(i32, i32, usize)>::empty());
    while i < units.len()
        invariant
            i <= units@.len(),
            forall|k: int| 0 <= k < units@.len() ==> (#[trigger] units@[k]).2 < 51,
            charset.is_ascii(),
            charset@ == path_charset(),
            charset@.len() == 51,
            forall|j: int| 0 <= j < charset@.len() ==> is_path_char(#[trigger] charset@[j]),
            "/"@ == seq!['/'],
            "."@ == seq!['.'],
            result@ == seq![path_charset()[first as int]] + units_chars(
                units@.subrange(0, i as int),
            ),
            is_path_char(result@[0]),
            is_path_char(result@.last()),
            path_units(result@.subrange(1, result@.len() as int), i as nat),
        decreases units@.len() - i,
    {
        let ghost before = result@;
        let (slash, dot, c) = units[i];
        if slash == 0 {
            result.append("/");
        }
        if dot == 1 {
            result.append(".");
        }
        result.append(char_at(charset, c));
        proof {
            let u = units@[i as int];
            let unit = result@.subrange(before.len() as int, result@.len() as int);
            assert(unit =~= unit_chars(u));
            assert(result@ =~= before + unit);
            assert(units@.subrange(0, i + 1) =~= units@.subrange(0, i as int).push(u));
            lemma_units_chars_push(units@.subrange(0, i as int), u);
            assert(result@.subrange(1, result@.len() as int) =~= before.subrange(
                1,
                before.len() as int,
            ) + unit);
            lemma_path_units_push(before.subrange(1, before.len() as int), i as nat, unit);
        }
        i = i + 1;
    }
    let ghost body = result@;
    result.append(char_at(charset, last));
    assert(units@.subrange(0, units@.len() as int) =~= units@);
    assert(result@.subrange(1, result@.len() - 1) =~= body.subrange(1, body.len() as int));
    if 8 <= units.len() && units.len() < 28 {
        assert(path_units(result@.subrange(1, result@.len() - 1), units@.len() as nat));
    }
    result
}

/// The generator went from `states[0]` to the last of `states` drawing, in
/// turn, the values of `log`: entry `(low, high, v)` is a value `v` drawn
/// from `low..high`, and `step` relates the state before a draw, the state
/// after it, the range and the value.
pub open spec fn drawn_in_turn<R>(
    step: spec_fn(R, R, int, int, int) -> bool,
    states: Seq<R>,
    log: Seq<(int, int, int)>,
) -> bool {
    &&& states.len() == log.len() + 1
    &&& forall|k: int|
        #![trigger log[k]]
        0 <= k < log.len() ==> step(states[k], states[k + 1], log[k].0, log[k].1, log[k].2)
}

/// One more draw extends the run.
pub proof fn lemma_drawn_push<R>(
    step: spec_fn(R, R, int, int, int) -> bool,
    states: Seq<R>,
    log: Seq<(int, int, int)>,
    next: R,
    low: int,
    high: int,
    v: int,
)
    requires
        drawn_in_turn(step, states, log),
        step(states.last(), next, low, high, v),
    ensures
        drawn_in_turn(step, states.push(next), log.push((low, high, v))),
{
    let s2 = states.push(next);
    let l2 = log.push((low, high, v));
    assert forall|k: int| #![trigger l2[k]] 0 <= k < l2.len() implies step(
        s2[k],
        s2[k + 1],
        l2[k].0,
        l2[k].1,
        l2[k].2,
    ) by {
        if k < log.len() {
            assert(l2[k] == log[k]);
            assert(s2[k] == states[k]);
            assert(s2[k + 1] == states[k + 1]);
        }
    }
}

/// The draws of a name: `head` from `0..53`, then each of `tail` from
/// `0..63`.
pub open spec fn name_log(head: usize, tail: Seq<usize>) -> Seq<(int, int, int)> {
    seq![(0int, 53int, head as int)] + Seq::new(tail.len(), |i: int| (0int, 63int, tail[i] as int))
}

/// The draws of one path unit: two `i32` draws from `0..5`, then one from
/// `0..51`.
pub open spec fn unit_log(u: (i32, i32, usize)) -> Seq<(int, int, int)> {
    seq![(0int, 5int, u.0 as int), (0int, 5int, u.1 as int), (0int, 51int, u.2 as int)]
}

/// The draws of the units, in order.
pub open spec fn units_log(units: Seq<(i32, i32, usize)>) -> Seq<(int, int, int)>
    decreases units.len(),
{
    if units.len() == 0 {
        Seq::empty()
    } else {
        units_log(units.drop_last()) + unit_log(units.last())
    }
}

/// The draws of a path: the first character from `0..51`, the number of
/// units from `8..28`, the units, and the last character from `0..51`.
pub open spec fn path_log(first: usize, units: Seq<(i32, i32, usize)>, last: usize) -> Seq<
    (int, int, int),
> {
    seq![(0int, 51int, first as int), (8int, 28int, units.len() as int)] + units_log(units) + seq![
        (0int, 51int, last as int),
    ]
}

/// The draws of the units lie in their ranges, three per unit.
proof fn lemma_units_log_in_range(units: Seq<(i32, i32, usize)>)
    requires
        forall|i: int|
            0 <= i < units.len() ==> 0 <= (#[trigger] units[i]).0 < 5 && 0 <= units[i].1 < 5
                && units[i].2 < 51,
    ensures
        units_log(units).len() == 3 * units.len(),
        forall|k: int|
            0 <= k < units_log(units).len() ==> (#[trigger] units_log(units)[k]).0
                <= units_log(units)[k].2 < units_log(units)[k].1,
    decreases units.len(),
{
    if units.len() > 0 {
        let rest = units.drop_last();
        lemma_units_log_in_range(rest);
        let a = units_log(rest);
        let u = unit_log(units.last());
        assert(units_log(units) == a + u);
        assert forall|k: int| 0 <= k < units_log(units).len() implies (
        #[trigger] units_log(units)[k]).0 <= units_log(units)[k].2 < units_log(units)[k].1 by {
            if k < a.len() {
                assert(units_log(units)[k] == a[k]);
            } else {
                assert(units_log(units)[k] == u[k - a.len()]);
            }
        }
    }
}

/// Every name that draws in range pick can come out of the thread
/// generator: the run that draws them is one the generator can make.
pub proof fn lemma_every_name_can_be_drawn(rng: ThreadRng, head: usize, tail: Seq<usize>)
    requires
        head < 53,
        tail.len() == 10,
        forall|i: int| 0 <= i < 10 ==> #[trigger] tail[i] < 63,
    ensures
        drawn_in_turn(ThreadRng::step(), Seq::new(12, |k: int| rng), name_log(head, tail)),
{
    let log = name_log(head, tail);
    let states = Seq::new(12, |k: int| rng);
    assert forall|k: int| #![trigger log[k]] 0 <= k < log.len() implies (ThreadRng::step())(
        states[k],
        states[k + 1],
        log[k].0,
        log[k].1,
        log[k].2,
    ) by {
        if k > 0 {
            assert(log[k] == (0int, 63int, tail[k - 1] as int));
        }
    }
}

/// Every path that draws in range pick can come out of the thread
/// generator: the run that draws them is one the generator can make.
pub proof fn lemma_every_path_can_be_drawn(
    rng: ThreadRng,
    first: usize,
    units: Seq<(i32, i32, usize)>,
    last: usize,
)
    requires
        first < 51,
        last < 51,
        8 <= units.len() < 28,
        forall|i: int|
            0 <= i < units.len() ==> 0 <= (#[trigger] units[i]).0 < 5 && 0 <= units[i].1 < 5
                && units[i].2 < 51,
    ensures
        drawn_in_turn(
            ThreadRng::step(),
            Seq::new(path_log(first, units, last).len() + 1, |k: int| rng),
            path_log(first, units, last),
        ),
{
    lemma_units_log_in_range(units);
    let log = path_log(first, units, last);
    let mid = units_log(units);
    let states = Seq::new(log.len() + 1, |k: int| rng);
    assert forall|k: int| #![trigger log[k]] 0 <= k < log.len() implies (ThreadRng::step())(
        states[k],
        states[k + 1],
        log[k].0,
        log[k].1,
        log[k].2,
    ) by {
        if 2 <= k < 2 + mid.len() {
            assert(log[k] == mid[k - 2]);
        }
    }
}

/// Random names, paths and extensions drawn from a generator.
pub trait RandExt: Sized {
    /// `step(before, after, low, high, r)`: the generator, going from state
    /// `before` to state `after`, drew `r` from `low..high`.
    spec fn step() -> spec_fn(Self, Self, int, int, int) -> bool;

    /// A value drawn from `low..high`.
    fn gen_index(&mut self, low: usize, high: usize) -> (r: usize)
        requires
            low < high,
        ensures
            low <= r < high,
            (Self::step())(*old(self), *final(self), low as int, high as int, r as int),
    ;

    /// An `i32` drawn from `low..high`.
    fn gen_small(&mut self, low: i32, high: i32) -> (r: i32)
        requires
            low < high,
        ensures
            low <= r < high,
            (Self::step())(*old(self), *final(self), low as int, high as int, r as int),
    ;

    /// A random CSS class name: one draw in `0..53` picks the first
    /// character, ten draws in `0..63` pick the others; the name is the one
    /// these draws pick.
    fn gen_class_name(&mut self) -> (r: String)
        ensures
            is_generated_name(r@),
            exists|head: usize, tail: Seq<usize>|
                head < 53 && tail.len() == 10 && (forall|i: int| 0 <= i < 10 ==> #[trigger] tail[i] < 63)
                    && r@ == #[trigger] name_from_draws(head, tail),
            exists|states: Seq<Self>, head: usize, tail: Seq<usize>|
                #[trigger] drawn_in_turn(Self::step(), states, name_log(head, tail)) && states[0] == *old(self)
                    && states.last() == *final(self) && tail.len() == 10 && r@ == name_from_draws(
                    head,
                    tail,
                ),
    {
        let ghost start = *self;
        let ghost mut states: Seq<Self> = seq![*self];
        let ghost mut log: Seq<(int, int, int)> = Seq::empty();
        let head = self.gen_index(0, 53);
        proof {
            lemma_drawn_push(Self::step(), states, log, *self, 0, 53, head as int);
            states = states.push(*self);
            log = log.push((0int, 53int, head as int));
        }
        let mut tail: Vec<usize> = Vec::new();
        for _i in 9..19
            invariant
                head < 53,
                tail@.len() == _i - 9,
                forall|k: int| 0 <= k < tail@.len() ==> #[trigger] tail@[k] < 63,
                states.len() >= 1,
                states[0] == start,
                states.last() == *self,
                drawn_in_turn(Self::step(), states, log),
                log =~= name_log(head, tail@),
        {
            let k = self.gen_index(0, 63);
            proof {
                lemma_drawn_push(Self::step(), states, log, *self, 0, 63, k as int);
                states = states.push(*self);
                log = log.push((0int, 63int, k as int));
            }
            tail.push(k);
            assert(log =~= name_log(head, tail@));
        }
        let r = name_from_indices(head, &tail);
        assert(drawn_in_turn(Self::step(), states, name_log(head, tail@)));
        r
    }

    /// A random HTML id; drawn as a class name is.
    fn gen_id_name(&mut self) -> (r: String)
        ensures
            is_generated_name(r@),
            exists|head: usize, tail: Seq<usize>|
                head < 53 && tail.len() == 10 && (forall|i: int| 0 <= i < 10 ==> #[trigger] tail[i] < 63)
                    && r@ == #[trigger] name_from_draws(head, tail),
            exists|states: Seq<Self>, head: usize, tail: Seq<usize>|
                #[trigger] drawn_in_turn(Self::step(), states, name_log(head, tail)) && states[0] == *old(self)
                    && states.last() == *final(self) && tail.len() == 10 && r@ == name_from_draws(
                    head,
                    tail,
                ),
    {
        let ghost start = *self;
        let ghost mut states: Seq<Self> = seq![*self];
        let ghost mut log: Seq<(int, int, int)> = Seq::empty();
        let head = self.gen_index(0, 53);
        proof {
            lemma_drawn_push(Self::step(), states, log, *self, 0, 53, head as int);
            states = states.push(*self);
            log = log.push((0int, 53int, head as int));
        }
        let mut tail: Vec<usize> = Vec::new();
        for _i in 9..19
            invariant
                head < 53,
                tail@.len() == _i - 9,
                forall|k: int| 0 <= k < tail@.len() ==> #[trigger] tail@[k] < 63,
                states.len() >= 1,
                states[0] == start,
                states.last() == *self,
                drawn_in_turn(Self::step(), states, log),
                log =~= name_log(head, tail@),
        {
            let k = self.gen_index(0, 63);
            proof {
                lemma_drawn_push(Self::step(), states, log, *self, 0, 63, k as int);
                states = states.push(*self);
                log = log.push((0int, 63int, k as int));
            }
            tail.push(k);
            assert(log =~= name_log(head, tail@));
        }
        let r = name_from_indices(head, &tail);
        assert(drawn_in_turn(Self::step(), states, name_log(head, tail@)));
        r
    }

    /// A random file extension: one draw in `0..20` picks it from the pool.
    fn gen_ext(&mut self) -> (r: &str)
        ensures
            extension_pool().contains(r@),
            exists|i: int| 0 <= i < 20 && r@ == #[trigger] extension_pool()[i],
            exists|states: Seq<Self>, i: int|
                #[trigger] drawn_in_turn(Self::step(), states, seq![(0int, 20int, i)]) && states[0] == *old(self)
                    && states.last() == *final(self) && 0 <= i < 20 && r@ == extension_pool()[i],
    {
        let ghost start = *self;
        let i = self.gen_index(0, 20);
        proof {
            lemma_drawn_push(Self::step(), seq![start], Seq::empty(), *self, 0, 20, i as int);
            assert(Seq::<(int, int, int)>::empty().push((0int, 20int, i as int)) =~= seq![
                (0int, 20int, i as int),
            ]);
            assert(drawn_in_turn(Self::step(), seq![start].push(*self), seq![(0int, 20int, i as int)]));
        }
        ext_at(i)
    }

    /// A random path: a draw in `0..51` picks the first path character; a
    /// draw in `8..28` gives the number of units; for each unit, an `i32`
    /// draw in `0..5` puts a `/` where it is 0, another puts a `.` where it is
    /// 1, and a draw in `0..51` picks the path character; a last draw in
    /// `0..51` picks the closing character. The path is the one these draws
    /// pick.
    fn gen_path(&mut self) -> (r: String)
        ensures
            is_random_path(r@),
            exists|first: usize, units: Seq<(i32, i32, usize)>, last: usize|
                first < 51 && last < 51 && 8 <= units.len() < 28 && (forall|i: int|
                    0 <= i < units.len() ==> 0 <= (#[trigger] units[i]).0 < 5 && 0 <= units[i].1 < 5
                        && units[i].2 < 51) && r@ == #[trigger] path_from_draws_spec(first, units, last),
            exists|states: Seq<Self>, first: usize, units: Seq<(i32, i32, usize)>, last: usize|
                #[trigger] drawn_in_turn(Self::step(), states, path_log(first, units, last)) && states[0]
                    == *old(self) && states.last() == *final(self) && r@ == path_from_draws_spec(
                    first,
                    units,
                    last,
                ),
    {
        let ghost start = *self;
        let ghost mut states: Seq<Self> = seq![*self];
        let ghost mut log: Seq<(int, int, int)> = Seq::empty();
        let first = self.gen_index(0, 51);
        proof {
            lemma_drawn_push(Self::step(), states, log, *self, 0, 51, first as int);
            states = states.push(*self);
            log = log.push((0int, 51int, first as int));
        }
        let range0 = self.gen_index(8, 28);
        proof {
            lemma_drawn_push(Self::step(), states, log, *self, 8, 28, range0 as int);
            states = states.push(*self);
            log = log.push((8int, 28int, range0 as int));
        }
        let mut units: Vec<(i32, i32, usize)> = Vec::new();
        for _i in 0..range0
            invariant
                units@.len() == _i,
                forall|k: int|
                    0 <= k < units@.len() ==> 0 <= (#[trigger] units@[k]).0 < 5 && 0 <= units@[k].1
                        < 5 && units@[k].2 < 51,
                states.len() >= 1,
                states[0] == start,
                states.last() == *self,
                drawn_in_turn(Self::step(), states, log),
                log =~= seq![(0int, 51int, first as int), (8int, 28int, range0 as int)] + units_log(
                    units@,
                ),
        {
            let ghost log0 = log;
            let slash = self.gen_small(0, 5);
            proof {
                lemma_drawn_push(Self::step(), states, log, *self, 0, 5, slash as int);
                states = states.push(*self);
                log = log.push((0int, 5int, slash as int));
            }
            let dot = self.gen_small(0, 5);
            proof {
                lemma_drawn_push(Self::step(), states, log, *self, 0, 5, dot as int);
                states = states.push(*self);
                log = log.push((0int, 5int, dot as int));
            }
            let c = self.gen_index(0, 51);
            proof {
                lemma_drawn_push(Self::step(), states, log, *self, 0, 51, c as int);
                states = states.push(*self);
                log = log.push((0int, 51int, c as int));
            }
            let ghost prev = units@;
            units.push((slash, dot, c));
            proof {
                assert(units@.drop_last() =~= prev);
                assert(log =~= log0 + unit_log((slash, dot, c)));
                assert(units_log(units@) == units_log(prev) + unit_log((slash, dot, c)));
                assert(log =~= seq![(0int, 51int, first as int), (8int, 28int, range0 as int)]
                    + units_log(units@));
            }
        }
        let last = self.gen_index(0, 51);
        proof {
            lemma_drawn_push(Self::step(), states, log, *self, 0, 51, last as int);
            states = states.push(*self);
            log = log.push((0int, 51int, last as int));
            assert(log =~= path_log(first, units@, last));
        }
        let r = path_from_draws(first, &units, last);
        assert(drawn_in_turn(Self::step(), states, path_log(first, units@, last)));
        r
    }
}

impl RandExt for ThreadRng {
    /// Any value of the range may be drawn; how the generator's state moves
    /// is not modelled.
    closed spec fn step() -> spec_fn(Self, Self, int, int, int) -> bool {
        |before: Self, after: Self, low: int, high: int, r: int| low <= r < high
    }

    fn gen_index(&mut self, low: usize, high: usize) -> (r: usize) {
        thread_rng_gen_range(self, low, high)
    }

    fn gen_small(&mut self, low: i32, high: i32) -> (r: i32) {
        thread_rng_gen_range_i32(self, low, high)
    }
}

impl RandExt for StdRng {
    /// Any value of the range may be drawn; how the generator's state moves
    /// is not modelled.
    closed spec fn step() -> spec_fn(Self, Self, int, int, int) -> bool {
        |before: Self, after: Self, low: int, high: int, r: int| low <= r < high
    }

    fn gen_index(&mut self, low: usize, high: usize) -> (r: usize) {
        std_rng_gen_range(self, low, high)
    }

    fn gen_small(&mut self, low: i32, high: i32) -> (r: i32) {
        std_rng_gen_range_i32(self, low, high)
    }
}

impl RandExt for OsRng {
    /// Any value of the range may be drawn; how the generator's state moves
    /// is not modelled.
    closed spec fn step() -> spec_fn(Self, Self, int, int, int) -> bool {
        |before: Self, after: Self, low: int, high: int, r: int| low <= r < high
    }

    fn gen_index(&mut self, low: usize, high: usize) -> (r: usize) {
        os_rng_gen_range(self, low, high)
    }

    fn gen_small(&mut self, low: i32, high: i32) -> (r: i32) {
        os_rng_gen_range_i32(self, low, high)
    }
}

} // verus!
