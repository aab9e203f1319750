//! Character-level text primitives: whitespace, splitting, trimming,
//! joining and decimal numbers.
//!
//! Every function here works on the characters of a string (its view, a
//! `Seq<char>`), and each is specified by a spec function that states the
//! meaning of the corresponding `str` operation of the standard library.

use vstd::prelude::*;
use vstd::slice::slice_subrange;

verus! {

/// The Unicode `White_Space` property, which `char::is_whitespace` tests.
pub open spec fn is_ws(c: char) -> bool {
    ||| ('\u{9}' <= c && c <= '\u{d}')
    ||| c == ' '
    ||| c == '\u{85}'
    ||| c == '\u{a0}'
    ||| c == '\u{1680}'
    ||| ('\u{2000}' <= c && c <= '\u{200a}')
    ||| c == '\u{2028}'
    ||| c == '\u{2029}'
    ||| c == '\u{202f}'
    ||| c == '\u{205f}'
    ||| c == '\u{3000}'
}

/// Whether `c` is whitespace.
pub fn is_whitespace(c: char) -> (res: bool)
    ensures
        res == is_ws(c),
{
    ('\u{9}' <= c && c <= '\u{d}') || c == ' ' || c == '\u{85}' || c == '\u{a0}' || c == '\u{1680}'
        || ('\u{2000}' <= c && c <= '\u{200a}') || c == '\u{2028}' || c == '\u{2029}' || c
        == '\u{202f}' || c == '\u{205f}' || c == '\u{3000}'
}

/// Number of leading characters of `s` that are not whitespace.
pub open spec fn word_len(s: Seq<char>) -> nat
    decreases s.len(),
{
    if s.len() == 0 || is_ws(s[0]) {
        0
    } else {
        1 + word_len(s.drop_first())
    }
}

/// Number of leading whitespace characters of `s`.
pub open spec fn lead_ws_len(s: Seq<char>) -> nat
    decreases s.len(),
{
    if s.len() == 0 || !is_ws(s[0]) {
        0
    } else {
        1 + lead_ws_len(s.drop_first())
    }
}

/// Number of trailing whitespace characters of `s`.
pub open spec fn trail_ws_len(s: Seq<char>) -> nat
    decreases s.len(),
{
    if s.len() == 0 || !is_ws(s.last()) {
        0
    } else {
        1 + trail_ws_len(s.drop_last())
    }
}

/// Number of leading characters of `s` that differ from `sep`.
pub open spec fn piece_len(s: Seq<char>, sep: char) -> nat
    decreases s.len(),
{
    if s.len() == 0 || s[0] == sep {
        0
    } else {
        1 + piece_len(s.drop_first(), sep)
    }
}

pub proof fn lemma_word_len_bound(s: Seq<char>)
    ensures
        word_len(s) <= s.len(),
        s.len() > 0 && !is_ws(s[0]) ==> word_len(s) >= 1,
    decreases s.len(),
{
    if s.len() > 0 && !is_ws(s[0]) {
        lemma_word_len_bound(s.drop_first());
    }
}

pub proof fn lemma_piece_len_bound(s: Seq<char>, sep: char)
    ensures
        piece_len(s, sep) <= s.len(),
    decreases s.len(),
{
    if s.len() > 0 && s[0] != sep {
        lemma_piece_len_bound(s.drop_first(), sep);
    }
}

/// The maximal runs of non-whitespace characters of `s`, in order: what
/// `str::split_whitespace` yields.
pub open spec fn ws_split(s: Seq<char>) -> Seq<Seq<char>>
    decreases s.len(),
{
    if s.len() == 0 {
        seq![]
    } else if is_ws(s[0]) {
        ws_split(s.drop_first())
    } else {
        let n = word_len(s);
        proof {
            lemma_word_len_bound(s);
        }
        seq![s.take(n as int)] + ws_split(s.skip(n as int))
    }
}

/// The pieces of `s` between occurrences of `sep`, in order, empty pieces
/// included: what `str::split` yields for a one-character pattern.
pub open spec fn split_char(s: Seq<char>, sep: char) -> Seq<Seq<char>>
    decreases s.len(),
{
    let n = piece_len(s, sep);
    proof {
        lemma_piece_len_bound(s, sep);
    }
    if n == s.len() {
        seq![s]
    } else {
        seq![s.take(n as int)] + split_char(s.skip(n + 1 as int), sep)
    }
}

/// `s` without its leading and trailing whitespace: what `str::trim` yields.
pub open spec fn trim(s: Seq<char>) -> Seq<char> {
    let a = lead_ws_len(s);
    if a >= s.len() {
        seq![]
    } else {
        s.subrange(a as int, s.len() - trail_ws_len(s))
    }
}

} // verus!

verus! {

pub proof fn lemma_word_len_is(t: Seq<char>, m: int)
    requires
        0 <= m <= t.len(),
        forall|k: int| 0 <= k < m ==> !is_ws(#[trigger] t[k]),
        m == t.len() || is_ws(t[m]),
    ensures
        word_len(t) == m,
    decreases m,
{
    if m > 0 {
        lemma_word_len_is(t.drop_first(), m - 1);
    }
}

pub proof fn lemma_lead_ws_is(t: Seq<char>, m: int)
    requires
        0 <= m <= t.len(),
        forall|k: int| 0 <= k < m ==> is_ws(#[trigger] t[k]),
        m == t.len() || !is_ws(t[m]),
    ensures
        lead_ws_len(t) == m,
    decreases m,
{
    if m > 0 {
        lemma_lead_ws_is(t.drop_first(), m - 1);
    }
}

pub proof fn lemma_trail_ws_is(t: Seq<char>, m: int)
    requires
        0 <= m <= t.len(),
        forall|k: int| t.len() - m <= k < t.len() ==> is_ws(#[trigger] t[k]),
        m == t.len() || !is_ws(t[t.len() - 1 - m]),
    ensures
        trail_ws_len(t) == m,
    decreases m,
{
    if m > 0 {
        let u = t.drop_last();
        assert forall|k: int| u.len() - (m - 1) <= k < u.len() implies is_ws(#[trigger] u[k]) by {
            assert(u[k] == t[k]);
        }
        lemma_trail_ws_is(u, m - 1);
    }
}

pub proof fn lemma_piece_len_is(t: Seq<char>, sep: char, m: int)
    requires
        0 <= m <= t.len(),
        forall|k: int| 0 <= k < m ==> #[trigger] t[k] != sep,
        m == t.len() || t[m] == sep,
    ensures
        piece_len(t, sep) == m,
    decreases m,
{
    if m > 0 {
        lemma_piece_len_is(t.drop_first(), sep, m - 1);
    }
}

/// The characters of `s`, in order.
pub fn chars_of(s: &str) -> (v: Vec<char>)
    ensures
        v@ == s@,
{
    let mut v: Vec<char> = Vec::new();
    for c in it: s.chars()
        invariant
            v@ == it.seq().take(it.index() as int),
    {
        v.push(c);
    }
    v
}

/// Calls `String::from_iter` (the `FromIterator<&char>` impl of `String`)
/// on the characters of `cs`; the contract claims that the string holds
/// exactly those characters, in order.
#[verifier::external_body]
fn collect_string(cs: &[char]) -> (s: String)
    ensures
        s@ == cs@,
{
    String::from_iter(cs)
}

/// The string made of the characters `v[a..b]`.
pub fn string_of(v: &Vec<char>, a: usize, b: usize) -> (s: String)
    requires
        a <= b <= v@.len(),
    ensures
        s@ == v@.subrange(a as int, b as int),
{
    collect_string(slice_subrange(v.as_slice(), a, b))
}

/// The string made of the characters `v`.
pub fn string_of_all(v: &Vec<char>) -> (s: String)
    ensures
        s@ == v@,
{
    collect_string(v.as_slice())
}

/// `rs` locates, inside `v[lo..hi]`, one range of characters per part of `parts`.
pub open spec fn ranges_match(
    v: Seq<char>,
    rs: Seq<(usize, usize)>,
    parts: Seq<Seq<char>>,
    lo: int,
    hi: int,
) -> bool {
    &&& rs.len() == parts.len()
    &&& forall|i: int|
        0 <= i < rs.len() ==> {
            &&& lo <= (#[trigger] rs[i]).0 <= rs[i].1 <= hi
            &&& v.subrange(rs[i].0 as int, rs[i].1 as int) == parts[i]
        }
}

/// The character ranges of the whitespace-separated words of `v[a..b]`.
pub fn ws_ranges(v: &Vec<char>, a: usize, b: usize) -> (rs: Vec<(usize, usize)>)
    requires
        a <= b <= v@.len(),
    ensures
        ranges_match(v@, rs@, ws_split(v@.subrange(a as int, b as int)), a as int, b as int),
{
    let ghost whole = v@.subrange(a as int, b as int);
    let ghost mut done: Seq<Seq<char>> = seq![];
    let mut rs: Vec<(usize, usize)> = Vec::new();
    let mut i = a;
    assert(whole == v@.subrange(i as int, b as int));
    while i < b
        invariant
            a <= i <= b <= v@.len(),
            whole == v@.subrange(a as int, b as int),
            ranges_match(v@, rs@, done, a as int, b as int),
            ws_split(whole) == done + ws_split(v@.subrange(i as int, b as int)),
        decreases b - i,
    {
        let ghost t = v@.subrange(i as int, b as int);
        if is_whitespace(v[i]) {
            assert(t.drop_first() =~= v@.subrange(i + 1, b as int));
            i = i + 1;
        } else {
            let mut j = i + 1;
            while j < b && !is_whitespace(v[j])
                invariant
                    i < j <= b <= v@.len(),
                    t == v@.subrange(i as int, b as int),
                    forall|k: int| i <= k < j ==> !is_ws(#[trigger] v@[k]),
                decreases b - j,
            {
                j = j + 1;
            }
            proof {
                assert forall|k: int| 0 <= k < j - i implies !is_ws(#[trigger] t[k]) by {
                    assert(t[k] == v@[i + k]);
                }
                lemma_word_len_is(t, j - i);
                assert(t.take(j - i) =~= v@.subrange(i as int, j as int));
                assert(t.skip(j - i) =~= v@.subrange(j as int, b as int));
                assert(done.push(t.take(j - i)) + ws_split(t.skip(j - i)) =~= done + (seq![
                    t.take(j - i),
                ] + ws_split(t.skip(j - i))));
                done = done.push(t.take(j - i));
            }
            rs.push((i, j));
            i = j;
        }
    }
    proof {
        assert(v@.subrange(i as int, b as int) =~= Seq::<char>::empty());
        assert(done + Seq::<Seq<char>>::empty() =~= done);
    }
    rs
}

/// The character ranges of the pieces of `v[a..b]` between occurrences of `sep`.
pub fn split_ranges(v: &Vec<char>, a: usize, b: usize, sep: char) -> (rs: Vec<(usize, usize)>)
    requires
        a <= b <= v@.len(),
    ensures
        ranges_match(v@, rs@, split_char(v@.subrange(a as int, b as int), sep), a as int, b as int),
{
    let ghost whole = v@.subrange(a as int, b as int);
    let ghost mut done: Seq<Seq<char>> = seq![];
    let mut rs: Vec<(usize, usize)> = Vec::new();
    let mut i = a;
    assert(whole == v@.subrange(i as int, b as int));
    loop
        invariant
            a <= i <= b <= v@.len(),
            whole == v@.subrange(a as int, b as int),
            ranges_match(v@, rs@, done, a as int, b as int),
            split_char(whole, sep) == done + split_char(v@.subrange(i as int, b as int), sep),
        decreases b - i,
    {
        let ghost t = v@.subrange(i as int, b as int);
        let mut j = i;
        while j < b && v[j] != sep
            invariant
                i <= j <= b <= v@.len(),
                t == v@.subrange(i as int, b as int),
                forall|k: int| i <= k < j ==> #[trigger] v@[k] != sep,
            decreases b - j,
        {
            j = j + 1;
        }
        proof {
            assert forall|k: int| 0 <= k < j - i implies #[trigger] t[k] != sep by {
                assert(t[k] == v@[i + k]);
            }
            lemma_piece_len_is(t, sep, j - i);
            assert(t.take(j - i) =~= v@.subrange(i as int, j as int));
        }
        rs.push((i, j));
        if j == b {
            proof {
                assert(t.take(j - i) =~= t);
                done = done.push(t);
                assert(done =~= done.drop_last() + seq![t]);
            }
            return rs;
        }
        proof {
            assert(t.skip(j - i + 1) =~= v@.subrange(j + 1, b as int));
            assert(done.push(t.take(j - i)) + split_char(t.skip(j - i + 1), sep) =~= done + (seq![
                t.take(j - i),
            ] + split_char(t.skip(j - i + 1), sep)));
            done = done.push(t.take(j - i));
        }
        i = j + 1;
    }
}

/// The character range of `v[a..b]` without its leading and trailing whitespace.
pub fn trim_range(v: &Vec<char>, a: usize, b: usize) -> (r: (usize, usize))
    requires
        a <= b <= v@.len(),
    ensures
        a <= r.0 <= r.1 <= b,
        v@.subrange(r.0 as int, r.1 as int) == trim(v@.subrange(a as int, b as int)),
{
    let ghost t = v@.subrange(a as int, b as int);
    let mut x = a;
    while x < b && is_whitespace(v[x])
        invariant
            a <= x <= b <= v@.len(),
            forall|k: int| a <= k < x ==> is_ws(#[trigger] v@[k]),
        decreases b - x,
    {
        x = x + 1;
    }
    proof {
        assert forall|k: int| 0 <= k < x - a implies is_ws(#[trigger] t[k]) by {
            assert(t[k] == v@[a + k]);
        }
        lemma_lead_ws_is(t, x - a);
    }
    if x == b {
        assert(v@.subrange(x as int, x as int) =~= Seq::<char>::empty());
        return (x, x);
    }
    let mut y = b;
    while y > x && is_whitespace(v[y - 1])
        invariant
            a <= x < b <= v@.len(),
            x <= y <= b,
            !is_ws(v@[x as int]),
            forall|k: int| y <= k < b ==> is_ws(#[trigger] v@[k]),
        decreases y,
    {
        y = y - 1;
    }
    proof {
        assert forall|k: int| t.len() - (b - y) <= k < t.len() implies is_ws(#[trigger] t[k]) by {
            assert(t[k] == v@[a + k]);
        }
        if b - y < t.len() {
            assert(t[t.len() - 1 - (b - y)] == v@[y - 1]);
        }
        lemma_trail_ws_is(t, b - y);
        assert(t.subrange(x - a, t.len() - (b - y)) =~= v@.subrange(x as int, y as int));
    }
    (x, y)
}

} // verus!

verus! {

/// The parts `ts` with `sep` between each two neighbours: what `join` on a
/// slice of strings yields.
pub open spec fn join(ts: Seq<Seq<char>>, sep: Seq<char>) -> Seq<char>
    decreases ts.len(),
{
    if ts.len() == 0 {
        seq![]
    } else if ts.len() == 1 {
        ts[0]
    } else {
        join(ts.drop_last(), sep) + sep + ts.last()
    }
}

/// Views of a sequence of strings.
pub open spec fn views(ss: Seq<String>) -> Seq<Seq<char>> {
    ss.map_values(|s: String| s@)
}

/// The strings `v[r.0..r.1]` for each range `r` of `rs`.
pub fn strings_of_ranges(v: &Vec<char>, rs: &Vec<(usize, usize)>) -> (ss: Vec<String>)
    requires
        forall|i: int| 0 <= i < rs@.len() ==> (#[trigger] rs@[i]).0 <= rs@[i].1 <= v@.len(),
    ensures
        ss@.len() == rs@.len(),
        forall|i: int|
            0 <= i < rs@.len() ==> (#[trigger] ss@[i])@ == v@.subrange(
                rs@[i].0 as int,
                rs@[i].1 as int,
            ),
{
    let mut ss: Vec<String> = Vec::new();
    for k in 0..rs.len()
        invariant
            ss@.len() == k,
            forall|i: int| 0 <= i < rs@.len() ==> (#[trigger] rs@[i]).0 <= rs@[i].1 <= v@.len(),
            forall|i: int|
                0 <= i < k ==> (#[trigger] ss@[i])@ == v@.subrange(
                    rs@[i].0 as int,
                    rs@[i].1 as int,
                ),
    {
        let r = rs[k];
        ss.push(string_of(v, r.0, r.1));
    }
    ss
}

/// The strings of `list`, separated by `sep`.
pub fn join_strings(list: &Vec<String>, sep: &str) -> (res: String)
    ensures
        res@ == join(views(list@), sep@),
{
    let mut res = String::new();
    let ghost vs = views(list@);
    for i in 0..list.len()
        invariant
            vs == views(list@),
            res@ == join(vs.take(i as int), sep@),
    {
        proof {
            assert(vs.take(i + 1).drop_last() =~= vs.take(i as int));
        }
        if i != 0 {
            res.append(sep);
        }
        res.append(list[i].as_str());
    }
    assert(vs.take(list@.len() as int) =~= vs);
    res
}

/// Whether `c` is an ASCII decimal digit.
pub open spec fn is_digit(c: char) -> bool {
    '0' <= c && c <= '9'
}

/// The value of the decimal digit `c`.
pub open spec fn digit_val(c: char) -> int {
    c as int - '0' as int
}

/// The digit character for `d` in `0..10`.
pub open spec fn digit_char(d: int) -> char {
    (d + '0' as int) as char
}

/// The value of the decimal numeral `s`, most significant digit first.
pub open spec fn digits_value(s: Seq<char>) -> int
    decreases s.len(),
{
    if s.len() == 0 {
        0
    } else {
        digits_value(s.drop_last()) * 10 + digit_val(s.last())
    }
}

/// The digits of a numeral `s`: `s` without one leading `+` sign.
pub open spec fn unsigned_digits(s: Seq<char>) -> Seq<char> {
    if s.len() > 0 && s[0] == '+' {
        s.drop_first()
    } else {
        s
    }
}

/// Whether every character of `d` is a decimal digit.
pub open spec fn all_digits(d: Seq<char>) -> bool {
    forall|i: int| 0 <= i < d.len() ==> is_digit(#[trigger] d[i])
}

/// What `str::parse::<usize>` accepts, and the value it gives: an optional
/// `+` sign, then one or more decimal digits whose value fits in a `usize`.
pub open spec fn parse_usize(s: Seq<char>) -> Option<usize> {
    let d = unsigned_digits(s);
    if d.len() > 0 && all_digits(d) && digits_value(d) <= usize::MAX {
        Some(digits_value(d) as usize)
    } else {
        None
    }
}

/// The decimal numeral of `n`, without leading zeros: what `{}` formats a
/// `usize` as.
pub open spec fn decimal(n: nat) -> Seq<char>
    decreases n,
{
    if n < 10 {
        seq![digit_char(n as int)]
    } else {
        decimal(n / 10).push(digit_char((n % 10) as int))
    }
}

proof fn lemma_digits_value_prefix(s: Seq<char>, k: int)
    requires
        0 <= k <= s.len(),
        forall|i: int| 0 <= i < s.len() ==> is_digit(#[trigger] s[i]),
    ensures
        digits_value(s) >= digits_value(s.take(k)) >= 0,
    decreases s.len(),
{
    if s.len() > 0 {
        let p = s.drop_last();
        assert forall|i: int| 0 <= i < p.len() implies is_digit(#[trigger] p[i]) by {
            assert(p[i] == s[i]);
        }
        if k == s.len() {
            assert(s.take(k) =~= s);
            lemma_digits_value_prefix(p, 0);
        } else {
            assert(s.take(k) =~= p.take(k));
            lemma_digits_value_prefix(p, k);
        }
    } else {
        assert(s.take(k) =~= s);
    }
}

/// The value of the numeral `v[a..b]` as `str::parse::<usize>` reads it.
pub fn parse_usize_range(v: &Vec<char>, a: usize, b: usize) -> (res: Option<usize>)
    requires
        a <= b <= v@.len(),
    ensures
        res == parse_usize(v@.subrange(a as int, b as int)),
{
    let ghost s = v@.subrange(a as int, b as int);
    let mut start = a;
    if a < b && v[a] == '+' {
        start = a + 1;
    }
    let ghost d = v@.subrange(start as int, b as int);
    assert(d =~= unsigned_digits(s));
    if start == b {
        return None;
    }
    let mut acc: usize = 0;
    let mut i = start;
    while i < b
        invariant
            a <= start <= i <= b <= v@.len(),
            start < b,
            s == v@.subrange(a as int, b as int),
            d == v@.subrange(start as int, b as int),
            d == unsigned_digits(s),
            forall|k: int| start <= k < i ==> is_digit(#[trigger] v@[k]),
            acc == digits_value(d.take(i - start)),
        decreases b - i,
    {
        let c = v[i];
        if !('0' <= c && c <= '9') {
            proof {
                assert(d[i - start] == v@[i as int]);
                assert(!is_digit(d[i - start]));
                assert(!all_digits(d));
            }
            return None;
        }
        let dv = (c as u32 - '0' as u32) as usize;
        proof {
            assert(d.take(i - start + 1).drop_last() =~= d.take(i - start));
        }
        if acc > (usize::MAX - dv) / 10 {
            proof {
                assert(digits_value(d.take(i - start + 1)) > usize::MAX) by (nonlinear_arith)
                    requires
                        acc > (usize::MAX - dv) / 10,
                        digits_value(d.take(i - start + 1)) == acc * 10 + dv,
                        0 <= dv <= 9,
                ;
                assert(d[i - start] == v@[i as int]);
                assert forall|k: int| 0 <= k < i - start + 1 implies is_digit(
                    #[trigger] d.take(i - start + 1)[k],
                ) by {
                    assert(d.take(i - start + 1)[k] == v@[start + k]);
                }
                if all_digits(d) {
                    lemma_digits_value_prefix(d, i - start + 1);
                    assert(digits_value(d) > usize::MAX);
                }
            }
            return None;
        }
        acc = acc * 10 + dv;
        i = i + 1;
    }
    assert(d.take(i - start) =~= d);
    assert forall|k: int| 0 <= k < d.len() implies is_digit(#[trigger] d[k]) by {
        assert(d[k] == v@[start + k]);
    }
    Some(acc)
}

/// The digit character for `d`.
fn digit_to_char(d: usize) -> (c: char)
    requires
        d < 10,
    ensures
        c == digit_char(d as int),
        is_digit(c),
        digit_val(c) == d,
{
    if d == 0 {
        '0'
    } else if d == 1 {
        '1'
    } else if d == 2 {
        '2'
    } else if d == 3 {
        '3'
    } else if d == 4 {
        '4'
    } else if d == 5 {
        '5'
    } else if d == 6 {
        '6'
    } else if d == 7 {
        '7'
    } else if d == 8 {
        '8'
    } else {
        '9'
    }
}

/// Appends the decimal numeral of `n` to `out`.
pub fn push_decimal(out: &mut Vec<char>, n: usize)
    ensures
        final(out)@ == old(out)@ + decimal(n as nat),
    decreases n,
{
    if n >= 10 {
        push_decimal(out, n / 10);
    }
    out.push(digit_to_char(n % 10));
    proof {
        if n < 10 {
            assert(n % 10 == n);
        }
    }
}

/// The decimal numeral of `n`.
pub fn decimal_string(n: usize) -> (s: String)
    ensures
        s@ == decimal(n as nat),
{
    let mut v: Vec<char> = Vec::new();
    push_decimal(&mut v, n);
    assert(v@ =~= decimal(n as nat));
    string_of_all(&v)
}

} // verus!

verus! {

pub proof fn lemma_decimal_digits(n: nat)
    ensures
        decimal(n).len() > 0,
        all_digits(decimal(n)),
        decimal(n)[0] != '+',
        digits_value(decimal(n)) == n,
    decreases n,
{
    let d = decimal(n);
    if n >= 10 {
        lemma_decimal_digits(n / 10);
        let p = decimal(n / 10);
        assert(d.drop_last() =~= p);
        assert(d[0] == p[0]);
        assert(digit_val(d.last()) == n % 10);
        assert((n / 10) * 10 + n % 10 == n) by (nonlinear_arith);
        assert forall|i: int| 0 <= i < d.len() implies is_digit(#[trigger] d[i]) by {
            if i < p.len() {
                assert(d[i] == p[i]);
            }
        }
    } else {
        assert(d.drop_last() =~= Seq::<char>::empty());
        assert(digits_value(Seq::<char>::empty()) == 0);
        assert(digit_val(d.last()) == n);
    }
}

/// Reading back a formatted number gives the number: `str::parse::<usize>`
/// on what `{}` writes for `n` yields `n`.
pub proof fn law_decimal_parses_back(n: usize)
    ensures
        parse_usize(decimal(n as nat)) == Some(n),
{
    lemma_decimal_digits(n as nat);
    assert(unsigned_digits(decimal(n as nat)) == decimal(n as nat));
}

} // verus!

verus! {

/// The parts of `ps`, each trimmed, without those that are empty after
/// trimming: `.map(str::trim).filter(|p| p.len() > 0)`.
pub open spec fn kept_parts(ps: Seq<Seq<char>>) -> Seq<Seq<char>>
    decreases ps.len(),
{
    if ps.len() == 0 {
        seq![]
    } else {
        let prev = kept_parts(ps.drop_last());
        let t = trim(ps.last());
        if t.len() > 0 {
            prev.push(t)
        } else {
            prev
        }
    }
}

/// The ranges of the trimmed, non-empty parts among the parts that `rs` locates.
pub(crate) fn kept_ranges(v: &Vec<char>, rs: &Vec<(usize, usize)>, Ghost(ps): Ghost<Seq<Seq<char>>>, Ghost(lo): Ghost<int>, Ghost(hi): Ghost<int>) -> (out: Vec<(usize, usize)>)
    requires
        0 <= lo <= hi <= v@.len(),
        ranges_match(v@, rs@, ps, lo, hi),
    ensures
        ranges_match(v@, out@, kept_parts(ps), lo, hi),
{
    let mut out: Vec<(usize, usize)> = Vec::new();
    for i in 0..rs.len()
        invariant
            0 <= lo <= hi <= v@.len(),
            ranges_match(v@, rs@, ps, lo, hi),
            ranges_match(v@, out@, kept_parts(ps.take(i as int)), lo, hi),
    {
        let r = rs[i];
        let t = trim_range(v, r.0, r.1);
        proof {
            assert(ps.take(i + 1).drop_last() =~= ps.take(i as int));
            assert(ps.take(i + 1).last() == ps[i as int]);
        }
        let ghost out0 = out@;
        if t.0 < t.1 {
            out.push(t);
        }
        proof {
            let kp = kept_parts(ps.take(i as int));
            assert(v@.subrange(t.0 as int, t.1 as int).len() == t.1 - t.0);
            if t.0 < t.1 {
                assert forall|j: int| 0 <= j < out@.len() implies lo <= (#[trigger] out@[j]).0
                    <= out@[j].1 <= hi && v@.subrange(out@[j].0 as int, out@[j].1 as int)
                    == kp.push(trim(ps[i as int]))[j] by {
                    if j < kp.len() {
                        assert(out@[j] == out0[j]);
                    }
                }
            }
        }
    }
    assert(ps.take(rs@.len() as int) =~= ps);
    out
}

/// Number of UTF-8 bytes that encode `c`, as `char::len_utf8` gives it.
pub open spec fn char_utf8_len(c: char) -> nat {
    if (c as u32) < 0x80 {
        1
    } else if (c as u32) < 0x800 {
        2
    } else if (c as u32) < 0x10000 {
        3
    } else {
        4
    }
}

/// Number of bytes of the UTF-8 encoding of `s`: what `str::len` gives.
pub open spec fn utf8_len(s: Seq<char>) -> nat
    decreases s.len(),
{
    if s.len() == 0 {
        0
    } else {
        utf8_len(s.drop_last()) + char_utf8_len(s.last())
    }
}

/// Whether `s` takes more than `limit` bytes in UTF-8.
pub fn utf8_len_exceeds(s: &str, limit: usize) -> (res: bool)
    requires
        limit <= usize::MAX - 4,
    ensures
        res == (utf8_len(s@) > limit),
{
    let v = chars_of(s);
    let mut total: usize = 0;
    for i in 0..v.len()
        invariant
            v@ == s@,
            limit <= usize::MAX - 4,
            total <= limit,
            total == utf8_len(s@.take(i as int)),
    {
        let c = v[i];
        let w: usize = if (c as u32) < 0x80 {
            1
        } else if (c as u32) < 0x800 {
            2
        } else if (c as u32) < 0x10000 {
            3
        } else {
            4
        };
        proof {
            assert(s@.take(i + 1).drop_last() =~= s@.take(i as int));
        }
        total = total + w;
        if total > limit {
            proof {
                lemma_utf8_len_prefix(s@, i + 1);
            }
            return true;
        }
    }
    assert(s@.take(v@.len() as int) =~= s@);
    false
}

proof fn lemma_utf8_len_prefix(s: Seq<char>, k: int)
    requires
        0 <= k <= s.len(),
    ensures
        utf8_len(s) >= utf8_len(s.take(k)),
    decreases s.len(),
{
    if k < s.len() {
        assert(s.take(k) =~= s.drop_last().take(k));
        lemma_utf8_len_prefix(s.drop_last(), k);
    } else {
        assert(s.take(k) =~= s);
    }
}

} // verus!

verus! {

/// Whether `a` and `b` hold the same characters.
pub fn str_eq(a: &str, b: &str) -> (res: bool)
    ensures
        res == (a@ == b@),
{
    let x = chars_of(a);
    let y = chars_of(b);
    if x.len() != y.len() {
        return false;
    }
    for i in 0..x.len()
        invariant
            x@ == a@,
            y@ == b@,
            x@.len() == y@.len(),
            forall|k: int| 0 <= k < i ==> x@[k] == y@[k],
    {
        if x[i] != y[i] {
            return false;
        }
    }
    assert(x@ =~= y@);
    true
}

} // verus!

verus! {

/// `t` is a word: not empty, and without whitespace.
pub open spec fn is_word(t: Seq<char>) -> bool {
    t.len() > 0 && forall|j: int| 0 <= j < t.len() ==> !is_ws(#[trigger] t[j])
}

proof fn lemma_word_len_of_word(t: Seq<char>)
    requires
        forall|j: int| 0 <= j < t.len() ==> !is_ws(#[trigger] t[j]),
    ensures
        word_len(t) == t.len(),
{
    lemma_word_len_is(t, t.len() as int);
}

proof fn lemma_word_len_append(x: Seq<char>, y: Seq<char>)
    requires
        word_len(x) < x.len(),
    ensures
        word_len(x + y) == word_len(x),
    decreases x.len(),
{
    if !is_ws(x[0]) {
        assert((x + y).drop_first() =~= x.drop_first() + y);
        lemma_word_len_append(x.drop_first(), y);
    }
}

proof fn lemma_word_len_ws_end(x: Seq<char>)
    requires
        x.len() > 0,
        is_ws(x.last()),
    ensures
        word_len(x) < x.len(),
    decreases x.len(),
{
    if x.len() > 1 && !is_ws(x[0]) {
        lemma_word_len_ws_end(x.drop_first());
    }
}

/// Splitting at a whitespace boundary splits the words.
pub proof fn lemma_ws_split_append(x: Seq<char>, y: Seq<char>)
    requires
        x.len() == 0 || is_ws(x.last()),
    ensures
        ws_split(x + y) == ws_split(x) + ws_split(y),
    decreases x.len(),
{
    if x.len() == 0 {
        assert(x + y =~= y);
        assert(ws_split(x) + ws_split(y) =~= ws_split(y));
    } else if is_ws(x[0]) {
        assert((x + y).drop_first() =~= x.drop_first() + y);
        lemma_ws_split_append(x.drop_first(), y);
    } else {
        lemma_word_len_ws_end(x);
        lemma_word_len_append(x, y);
        lemma_word_len_bound(x);
        let n = word_len(x) as int;
        assert((x + y).take(n) =~= x.take(n));
        assert((x + y).skip(n) =~= x.skip(n) + y);
        assert(x.skip(n).last() == x.last());
        lemma_ws_split_append(x.skip(n), y);
        assert(seq![x.take(n)] + (ws_split(x.skip(n)) + ws_split(y)) =~= (seq![x.take(n)] + ws_split(
            x.skip(n),
        )) + ws_split(y));
    }
}

/// A word splits into itself.
pub proof fn lemma_ws_split_word(t: Seq<char>)
    requires
        is_word(t),
    ensures
        ws_split(t) == seq![t],
{
    lemma_word_len_of_word(t);
    assert(!is_ws(t[0]));
    assert(t.take(t.len() as int) =~= t);
    assert(t.skip(t.len() as int) =~= Seq::<char>::empty());
    assert(ws_split(t.skip(t.len() as int)) =~= Seq::<Seq<char>>::empty());
    assert(seq![t] + Seq::<Seq<char>>::empty() =~= seq![t]);
}

/// The words of `ws_split` are words.
pub proof fn lemma_ws_split_words(s: Seq<char>)
    ensures
        forall|i: int| 0 <= i < ws_split(s).len() ==> is_word(#[trigger] ws_split(s)[i]),
    decreases s.len(),
{
    if s.len() > 0 {
        if is_ws(s[0]) {
            lemma_ws_split_words(s.drop_first());
            assert(ws_split(s) == ws_split(s.drop_first()));
        } else {
            lemma_word_len_bound(s);
            let n = word_len(s) as int;
            lemma_ws_split_words(s.skip(n));
            let t = s.take(n);
            assert forall|j: int| 0 <= j < t.len() implies !is_ws(#[trigger] t[j]) by {
                lemma_word_len_prefix_not_ws(s, j);
            }
            assert(is_word(t));
            assert(ws_split(s) == seq![t] + ws_split(s.skip(n)));
            assert forall|i: int| 0 <= i < ws_split(s).len() implies is_word(#[trigger] ws_split(s)[i]) by {
                if i > 0 {
                    assert(ws_split(s)[i] == ws_split(s.skip(n))[i - 1]);
                } else {
                    assert(ws_split(s)[0] == t);
                }
            }
        }
    }
}

proof fn lemma_word_len_prefix_not_ws(s: Seq<char>, j: int)
    requires
        0 <= j < word_len(s),
    ensures
        !is_ws(s[j]),
    decreases s.len(),
{
    lemma_word_len_bound(s);
    assert(s.len() > 0 && !is_ws(s[0]));
    if j > 0 {
        lemma_word_len_prefix_not_ws(s.drop_first(), j - 1);
        assert(s.drop_first()[j - 1] == s[j]);
    }
}

/// Words joined by single spaces split back into the same words.
pub proof fn lemma_ws_split_join(ts: Seq<Seq<char>>)
    requires
        forall|i: int| 0 <= i < ts.len() ==> is_word(#[trigger] ts[i]),
    ensures
        ws_split(join(ts, seq![' '])) == ts,
    decreases ts.len(),
{
    if ts.len() == 0 {
        assert(ws_split(Seq::<char>::empty()) =~= Seq::<Seq<char>>::empty());
    } else if ts.len() == 1 {
        lemma_ws_split_word(ts[0]);
        assert(ts =~= seq![ts[0]]);
    } else {
        let p = ts.drop_last();
        assert forall|i: int| 0 <= i < p.len() implies is_word(#[trigger] p[i]) by {
            assert(p[i] == ts[i]);
        }
        lemma_ws_split_join(p);
        let a = join(p, seq![' ']) + seq![' '];
        lemma_ws_split_append(a, ts.last());
        lemma_ws_split_end_ws(join(p, seq![' ']));
        lemma_ws_split_word(ts.last());
        assert(p + seq![ts.last()] =~= ts);
    }
}

/// A trailing space adds no word.
proof fn lemma_ws_split_end_ws(z: Seq<char>)
    ensures
        ws_split(z + seq![' ']) == ws_split(z),
    decreases z.len(),
{
    let zc = z + seq![' '];
    if z.len() == 0 {
        assert(zc =~= seq![' ']);
        assert(zc.drop_first() =~= Seq::<char>::empty());
        assert(ws_split(zc.drop_first()) =~= Seq::<Seq<char>>::empty());
        assert(ws_split(z) =~= Seq::<Seq<char>>::empty());
    } else if is_ws(z[0]) {
        assert(zc.drop_first() =~= z.drop_first() + seq![' ']);
        lemma_ws_split_end_ws(z.drop_first());
    } else {
        lemma_word_len_bound(z);
        let n = word_len(z) as int;
        assert(zc[0] == z[0]);
        if n < z.len() {
            lemma_word_len_append(z, seq![' ']);
        } else {
            assert forall|j: int| 0 <= j < n implies !is_ws(#[trigger] zc[j]) by {
                lemma_word_len_prefix_not_ws(z, j);
            }
            lemma_word_len_is(zc, n);
        }
        assert(word_len(zc) == n);
        assert(zc.take(n) =~= z.take(n));
        assert(zc.skip(n) =~= z.skip(n) + seq![' ']);
        lemma_ws_split_end_ws(z.skip(n));
        assert(ws_split(zc) == seq![zc.take(n)] + ws_split(zc.skip(n)));
    }
}

/// Normalising the spacing of a text twice changes nothing more: the words
/// of `s` joined by single spaces are a fixed point.
pub proof fn law_sentence_idempotent(s: Seq<char>)
    ensures
        join(ws_split(join(ws_split(s), seq![' '])), seq![' ']) == join(ws_split(s), seq![' ']),
{
    lemma_ws_split_words(s);
    lemma_ws_split_join(ws_split(s));
}

/// A non-empty trimmed string starts with a word.
pub proof fn lemma_trim_starts_with_word(s: Seq<char>)
    ensures
        trim(s).len() > 0 ==> !is_ws(trim(s)[0]) && ws_split(trim(s)).len() > 0,
{
    let a = lead_ws_len(s);
    if a < s.len() {
        lemma_lead_ws_bound(s);
        lemma_trail_ws_bound(s, a);
        let t = trim(s);
        if t.len() > 0 {
            assert(t[0] == s[a as int]);
            lemma_word_len_bound(t);
        }
    }
}

pub proof fn lemma_trail_ws_stop(s: Seq<char>)
    ensures
        trail_ws_len(s) <= s.len(),
        trail_ws_len(s) < s.len() ==> !is_ws(s[s.len() - 1 - trail_ws_len(s)]),
    decreases s.len(),
{
    if s.len() > 0 && is_ws(s.last()) {
        let p = s.drop_last();
        lemma_trail_ws_stop(p);
        if trail_ws_len(p) < p.len() {
            assert(p[p.len() - 1 - trail_ws_len(p)] == s[s.len() - 1 - trail_ws_len(s)]);
        }
    }
}

/// Trimming twice trims no more than once.
pub proof fn law_trim_idempotent(s: Seq<char>)
    ensures
        trim(trim(s)) == trim(s),
        trim(s).len() > 0 ==> !is_ws(trim(s)[0]) && !is_ws(trim(s).last()),
{
    let t = trim(s);
    if t.len() > 0 {
        let a = lead_ws_len(s);
        lemma_lead_ws_bound(s);
        lemma_trail_ws_bound(s, a);
        lemma_trail_ws_stop(s);
        assert(t[0] == s[a as int]);
        assert(t.last() == s[s.len() - 1 - trail_ws_len(s)]);
        assert(t =~= Seq::<char>::empty() + t);
        lemma_lead_ws_is(t, 0);
        lemma_trail_ws_is(t, 0);
        assert(t.subrange(0, t.len() as int) =~= t);
    } else {
        assert(t =~= Seq::<char>::empty());
    }
}

pub proof fn lemma_lead_ws_bound(s: Seq<char>)
    ensures
        lead_ws_len(s) <= s.len(),
        lead_ws_len(s) < s.len() ==> !is_ws(s[lead_ws_len(s) as int]),
    decreases s.len(),
{
    if s.len() > 0 && is_ws(s[0]) {
        lemma_lead_ws_bound(s.drop_first());
        let a = lead_ws_len(s.drop_first());
        if a < s.len() - 1 {
            assert(s.drop_first()[a as int] == s[a + 1 as int]);
        }
    }
}

pub proof fn lemma_trail_ws_bound(s: Seq<char>, a: nat)
    requires
        a < s.len(),
        !is_ws(s[a as int]),
    ensures
        a + trail_ws_len(s) < s.len(),
    decreases s.len(),
{
    if is_ws(s.last()) {
        lemma_trail_ws_bound(s.drop_last(), a);
    }
}


/// The UTF-8 length of a concatenation is the sum of the lengths.
pub proof fn lemma_utf8_len_append(a: Seq<char>, b: Seq<char>)
    ensures
        utf8_len(a + b) == utf8_len(a) + utf8_len(b),
    decreases b.len(),
{
    if b.len() == 0 {
        assert(a + b =~= a);
    } else {
        assert((a + b).drop_last() =~= a + b.drop_last());
        assert((a + b).last() == b.last());
        lemma_utf8_len_append(a, b.drop_last());
    }
}

proof fn lemma_utf8_len_one(c: char)
    ensures
        utf8_len(seq![c]) == char_utf8_len(c),
        char_utf8_len(c) >= 1,
{
    assert(seq![c].drop_last() =~= Seq::<char>::empty());
    assert(utf8_len(Seq::<char>::empty()) == 0);
    assert(seq![c].last() == c);
}

/// Joining a first part onto the others puts one separator after it.
pub proof fn lemma_join_cons(t: Seq<char>, rest: Seq<Seq<char>>, sep: Seq<char>)
    requires
        rest.len() > 0,
    ensures
        join(seq![t] + rest, sep) == t + sep + join(rest, sep),
    decreases rest.len(),
{
    let ts = seq![t] + rest;
    assert(ts.last() == rest.last());
    if rest.len() == 1 {
        assert(ts.drop_last() =~= seq![t]);
        assert(join(seq![t], sep) == t);
        assert(join(rest, sep) == rest[0]);
        assert(join(ts, sep) == join(ts.drop_last(), sep) + sep + ts.last());
        assert(join(ts, sep) =~= t + sep + join(rest, sep));
    } else {
        assert(ts.drop_last() =~= seq![t] + rest.drop_last());
        lemma_join_cons(t, rest.drop_last(), sep);
        assert(join(rest, sep) == join(rest.drop_last(), sep) + sep + rest.last());
        assert(join(ts, sep) =~= t + sep + join(rest, sep));
    }
}

/// The character that ends the first word of `s`, where one does, is whitespace.
proof fn lemma_word_len_stop(s: Seq<char>)
    ensures
        word_len(s) < s.len() ==> is_ws(s[word_len(s) as int]),
    decreases s.len(),
{
    if s.len() > 0 && !is_ws(s[0]) {
        lemma_word_len_stop(s.drop_first());
        lemma_word_len_bound(s.drop_first());
        if word_len(s) < s.len() {
            assert(s.drop_first()[word_len(s.drop_first()) as int] == s[word_len(s) as int]);
        }
    }
}

/// The words of `s` joined by single spaces take no more characters, and
/// no more UTF-8 bytes, than `s`.
pub proof fn lemma_sentence_len(s: Seq<char>)
    ensures
        join(ws_split(s), seq![' ']).len() <= s.len(),
        utf8_len(join(ws_split(s), seq![' '])) <= utf8_len(s),
    decreases s.len(),
{
    if s.len() == 0 {
        assert(join(ws_split(s), seq![' ']) =~= Seq::<char>::empty());
    } else if is_ws(s[0]) {
        lemma_sentence_len(s.drop_first());
        assert(s =~= seq![s[0]] + s.drop_first());
        lemma_utf8_len_append(seq![s[0]], s.drop_first());
        lemma_utf8_len_one(s[0]);
    } else {
        lemma_word_len_bound(s);
        let n = word_len(s) as int;
        let t = s.take(n);
        let u = s.skip(n);
        let rest = ws_split(u);
        assert(ws_split(s) == seq![t] + rest);
        assert(s =~= t + u);
        lemma_utf8_len_append(t, u);
        if rest.len() == 0 {
            assert(seq![t] + rest =~= seq![t]);
            assert(join(seq![t], seq![' ']) == t);
        } else {
            assert(u.len() > 0);
            lemma_word_len_stop(s);
            assert(is_ws(u[0]));
            assert(rest == ws_split(u.drop_first()));
            lemma_sentence_len(u.drop_first());
            lemma_join_cons(t, rest, seq![' ']);
            assert(u =~= seq![u[0]] + u.drop_first());
            lemma_utf8_len_append(seq![u[0]], u.drop_first());
            lemma_utf8_len_one(u[0]);
            lemma_utf8_len_one(' ');
            lemma_utf8_len_append(t + seq![' '], join(rest, seq![' ']));
            lemma_utf8_len_append(t, seq![' ']);
        }
    }
}

/// Words joined by single spaces: the text starts and ends with a word, and
/// each whitespace character in it is a space between two others.
pub proof fn lemma_join_spaced(ts: Seq<Seq<char>>)
    requires
        forall|i: int| 0 <= i < ts.len() ==> is_word(#[trigger] ts[i]),
    ensures
        ts.len() > 0 ==> join(ts, seq![' ']).len() > 0 && !is_ws(join(ts, seq![' '])[0]) && !is_ws(
            join(ts, seq![' ']).last(),
        ),
        forall|k: int|
            0 <= k < join(ts, seq![' ']).len() && is_ws(#[trigger] join(ts, seq![' '])[k]) ==> {
                &&& join(ts, seq![' '])[k] == ' '
                &&& 0 < k < join(ts, seq![' ']).len() - 1
                &&& !is_ws(join(ts, seq![' '])[k - 1])
                &&& !is_ws(join(ts, seq![' '])[k + 1])
            },
    decreases ts.len(),
{
    let j = join(ts, seq![' ']);
    if ts.len() == 1 {
        let w = ts[0];
        assert(is_word(w));
        assert(j == w);
        assert(!is_ws(w[w.len() - 1]));
    } else if ts.len() > 1 {
        let p = ts.drop_last();
        assert forall|i: int| 0 <= i < p.len() implies is_word(#[trigger] p[i]) by {
            assert(p[i] == ts[i]);
        }
        lemma_join_spaced(p);
        let a = join(p, seq![' ']);
        let w = ts.last();
        assert(is_word(w));
        assert(j == a + seq![' '] + w);
        assert(j[0] == a[0]);
        assert(j.last() == w[w.len() - 1]);
        assert forall|k: int| 0 <= k < j.len() && is_ws(#[trigger] j[k]) implies {
            &&& j[k] == ' '
            &&& 0 < k < j.len() - 1
            &&& !is_ws(j[k - 1])
            &&& !is_ws(j[k + 1])
        } by {
            if k < a.len() {
                assert(j[k] == a[k]);
                assert(is_ws(a[k]));
                assert(j[k - 1] == a[k - 1]);
                assert(j[k + 1] == a[k + 1]);
            } else if k > a.len() {
                assert(j[k] == w[k - a.len() - 1]);
            } else {
                assert(j[k - 1] == a.last());
                assert(j[k + 1] == w[0]);
            }
        }
    }
}

} // verus!
