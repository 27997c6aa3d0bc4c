//! Character-sequence primitives shared by the rest of the library.
//!
//! Text is handled as `Vec<char>` inside the library; `chars_of` and
//! `string_of` move between that form and `String`/`&str`.
use vstd::prelude::*;
use vstd::utf8::{encode_scalar, encode_utf8};

verus! {

/// Trusted, from std's documentation of `String::push`: the character is
/// appended to the end of the string.
pub assume_specification[ String::push ](s: &mut String, ch: char)
    ensures
        final(s)@ == old(s)@.push(ch),
;

// ---------------------------------------------------------------------------
// Specifications
// ---------------------------------------------------------------------------

/// Unicode `White_Space`, the property that `char::is_whitespace` tests.
pub open spec fn is_ws(c: char) -> bool {
    ||| ('\u{9}' <= c && c <= '\u{d}')
    ||| c == ' '
    ||| c == '\u{85}'
    ||| c == '\u{a0}'
    ||| c == '\u{1680}'
    ||| ('\u{2000}' <= c && c <= '\u{200a}')
    ||| c == '\u{2028}'
    ||| c == '\u{2029}'
    ||| c == '\u{202f}'
    ||| c == '\u{205f}'
    ||| c == '\u{3000}'
}

/// `s` without its leading whitespace.
pub open spec fn trim_start(s: Seq<char>) -> Seq<char>
    decreases s.len(),
{
    if s.len() > 0 && is_ws(s[0]) {
        trim_start(s.drop_first())
    } else {
        s
    }
}

/// `s` without its trailing whitespace.
pub open spec fn trim_end(s: Seq<char>) -> Seq<char>
    decreases s.len(),
{
    if s.len() > 0 && is_ws(s.last()) {
        trim_end(s.drop_last())
    } else {
        s
    }
}

/// `s` without leading and trailing whitespace (`str::trim`).
pub open spec fn trim(s: Seq<char>) -> Seq<char> {
    trim_end(trim_start(s))
}

/// `s` without any trailing occurrence of `c` (`str::trim_end_matches` with a char).
pub open spec fn trim_end_char(s: Seq<char>, c: char) -> Seq<char>
    decreases s.len(),
{
    if s.len() > 0 && s.last() == c {
        trim_end_char(s.drop_last(), c)
    } else {
        s
    }
}

/// `s` without any leading occurrence of `c` (`str::trim_start_matches` with a char).
pub open spec fn trim_start_char(s: Seq<char>, c: char) -> Seq<char>
    decreases s.len(),
{
    if s.len() > 0 && s[0] == c {
        trim_start_char(s.drop_first(), c)
    } else {
        s
    }
}

pub open spec fn starts_with(s: Seq<char>, p: Seq<char>) -> bool {
    p.len() <= s.len() && s.take(p.len() as int) == p
}

pub open spec fn ends_with(s: Seq<char>, p: Seq<char>) -> bool {
    p.len() <= s.len() && s.skip(s.len() - p.len()) == p
}

/// `p` occurs in `s` starting at index `i`.
pub open spec fn occurs_at(s: Seq<char>, p: Seq<char>, i: int) -> bool {
    0 <= i && i + p.len() <= s.len() && s.subrange(i, i + p.len()) == p
}

pub open spec fn contains(s: Seq<char>, p: Seq<char>) -> bool {
    exists|i: int| occurs_at(s, p, i)
}

/// `i` is the first index at which `p` occurs in `s` (`str::find`).
pub open spec fn is_first_occurrence(s: Seq<char>, p: Seq<char>, i: int) -> bool {
    occurs_at(s, p, i) && forall|j: int| 0 <= j < i ==> !occurs_at(s, p, j)
}

pub open spec fn ascii_lower_char(c: char) -> char {
    if 'A' <= c && c <= 'Z' {
        ((c as u32) + 32) as char
    } else {
        c
    }
}

/// `str::to_ascii_lowercase`.
pub open spec fn ascii_lower(s: Seq<char>) -> Seq<char> {
    s.map_values(|c: char| ascii_lower_char(c))
}

/// `s` with every occurrence of `c` removed.
pub open spec fn remove_char(s: Seq<char>, c: char) -> Seq<char> {
    s.filter(|x: char| x != c)
}

/// `str::replace`: non-overlapping occurrences of `from` are replaced, left to right.
pub open spec fn replace_all(s: Seq<char>, from: Seq<char>, to: Seq<char>) -> Seq<char>
    recommends
        from.len() > 0,
    decreases s.len(),
{
    if s.len() == 0 || from.len() == 0 {
        s
    } else if starts_with(s, from) {
        to + replace_all(s.skip(from.len() as int), from, to)
    } else {
        seq![s[0]] + replace_all(s.drop_first(), from, to)
    }
}

/// The pieces of `s` between occurrences of `sep` (`str::split` with a char).
pub open spec fn split_char(s: Seq<char>, sep: char) -> Seq<Seq<char>>
    decreases s.len(),
{
    if s.len() == 0 {
        seq![Seq::empty()]
    } else {
        let r = split_char(s.drop_last(), sep);
        if s.last() == sep {
            r.push(Seq::empty())
        } else {
            r.update(r.len() - 1, r.last().push(s.last()))
        }
    }
}

pub proof fn lemma_split_char_nonempty(s: Seq<char>, sep: char)
    ensures
        split_char(s, sep).len() >= 1,
    decreases s.len(),
{
    if s.len() > 0 {
        lemma_split_char_nonempty(s.drop_last(), sep);
    }
}

/// The text before and after the first `c` in `s` (`str::split_once`).
pub open spec fn split_once(s: Seq<char>, c: char) -> Option<(Seq<char>, Seq<char>)> {
    if exists|i: int| 0 <= i < s.len() && s[i] == c {
        let i = choose|i: int| 0 <= i < s.len() && s[i] == c && forall|j: int| 0 <= j < i ==> s[j] != c;
        Some((s.take(i), s.skip(i + 1)))
    } else {
        None
    }
}

/// The character sequences held by `v`.
pub open spec fn vec_views(v: Seq<Vec<char>>) -> Seq<Seq<char>> {
    v.map_values(|p: Vec<char>| p@)
}

/// The elements of `parts`, separated by `sep` (`[..].join(sep)`).
pub open spec fn join(parts: Seq<Seq<char>>, sep: Seq<char>) -> Seq<char>
    decreases parts.len(),
{
    if parts.len() == 0 {
        Seq::empty()
    } else if parts.len() == 1 {
        parts[0]
    } else {
        join(parts.drop_last(), sep) + sep + parts.last()
    }
}

pub open spec fn is_digit(c: char) -> bool {
    '0' <= c && c <= '9'
}

pub open spec fn all_digits(s: Seq<char>) -> bool {
    forall|i: int| 0 <= i < s.len() ==> is_digit(#[trigger] s[i])
}

pub open spec fn digit_value(c: char) -> nat {
    ((c as u32) - ('0' as u32)) as nat
}

/// The number that a string of decimal digits denotes.
pub open spec fn digits_value(s: Seq<char>) -> nat
    decreases s.len(),
{
    if s.len() == 0 {
        0
    } else {
        digits_value(s.drop_last()) * 10 + digit_value(s.last())
    }
}

/// The magnitude written by `s`: an optional `+`, then one or more digits
/// (the text that `str::parse` accepts for an unsigned integer).
pub open spec fn unsigned_text(s: Seq<char>) -> Option<nat> {
    let d = if s.len() > 0 && s[0] == '+' { s.drop_first() } else { s };
    if d.len() > 0 && all_digits(d) {
        Some(digits_value(d))
    } else {
        None
    }
}

/// The integer written by `s`: an optional `+` or `-`, then one or more digits
/// (the text that `str::parse` accepts for a signed integer).
pub open spec fn signed_text(s: Seq<char>) -> Option<int> {
    if s.len() > 0 && s[0] == '-' {
        let d = s.drop_first();
        if d.len() > 0 && all_digits(d) {
            Some(-(digits_value(d) as int))
        } else {
            None
        }
    } else {
        match unsigned_text(s) {
            Some(n) => Some(n as int),
            None => None,
        }
    }
}

/// `str::parse::<T>` for an unsigned `T` whose largest value is `max`.
pub open spec fn parse_unsigned(s: Seq<char>, max: nat) -> Option<nat> {
    match unsigned_text(s) {
        Some(n) => if n <= max { Some(n) } else { None },
        None => None,
    }
}

/// `str::parse::<T>` for a signed `T` with range `min..=max`.
pub open spec fn parse_signed(s: Seq<char>, min: int, max: int) -> Option<int> {
    match signed_text(s) {
        Some(n) => if min <= n <= max { Some(n) } else { None },
        None => None,
    }
}

pub open spec fn digit_char(d: nat) -> char
    recommends
        d < 10,
{
    (('0' as u32) + d) as char
}

/// The decimal digits of `n`, without leading zeros (`n.to_string()`).
pub open spec fn decimal(n: nat) -> Seq<char>
    decreases n,
{
    if n < 10 {
        seq![digit_char(n)]
    } else {
        decimal(n / 10).push(digit_char(n % 10))
    }
}

pub open spec fn hex_digit(d: nat) -> char
    recommends
        d < 16,
{
    if d < 10 {
        digit_char(d)
    } else {
        (('a' as u32) + (d - 10)) as char
    }
}

/// Two lower-case hexadecimal digits per byte (`format!("{b:02x}")` for each byte).
pub open spec fn hex_lower(bytes: Seq<u8>) -> Seq<char>
    decreases bytes.len(),
{
    if bytes.len() == 0 {
        Seq::empty()
    } else {
        hex_lower(bytes.drop_last()) + seq![
            hex_digit((bytes.last() / 16) as nat),
            hex_digit((bytes.last() % 16) as nat),
        ]
    }
}

/// Each character takes between one and four bytes in UTF-8.
pub proof fn lemma_utf8_len_bounds(s: Seq<char>)
    ensures
        s.len() <= encode_utf8(s).len() <= 4 * s.len(),
    decreases s.len(),
{
    if s.len() > 0 {
        let e = encode_scalar(s[0] as u32);
        assert(1 <= e.len() <= 4);
        lemma_utf8_len_bounds(s.drop_first());
    }
}

// ---------------------------------------------------------------------------
// Conversions
// ---------------------------------------------------------------------------

/// The characters of `s`, in order.
pub fn chars_of(s: &str) -> (v: Vec<char>)
    ensures
        v@ == s@,
{
    let mut v: Vec<char> = Vec::new();
    for c in it: s.chars()
        invariant
            v@ == it.seq().take(it.index() as int),
    {
        v.push(c);
    }
    v
}

/// A string made of the characters of `v`.
pub fn string_of(v: &Vec<char>) -> (s: String)
    ensures
        s@ == v@,
{
    let mut s = String::new();
    let mut i: usize = 0;
    while i < v.len()
        invariant
            i <= v.len(),
            s@ == v@.take(i as int),
        decreases v.len() - i,
    {
        s.push(v[i]);
        i += 1;
        assert(s@ == v@.take(i as int));
    }
    assert(v@.take(v.len() as int) == v@);
    s
}

/// Appends `w` to `v`.
pub fn append(v: &mut Vec<char>, w: &Vec<char>)
    ensures
        final(v)@ == old(v)@ + w@,
{
    let ghost start = v@;
    let mut i: usize = 0;
    while i < w.len()
        invariant
            i <= w.len(),
            v@ == start + w@.take(i as int),
        decreases w.len() - i,
    {
        v.push(w[i]);
        i += 1;
        assert(v@ == start + w@.take(i as int));
    }
    assert(w@.take(w.len() as int) == w@);
}

/// Appends the characters of `s` to `v`.
pub fn append_str(v: &mut Vec<char>, s: &str)
    ensures
        final(v)@ == old(v)@ + s@,
{
    let w = chars_of(s);
    append(v, &w);
}

/// The characters `v[from..to]`.
pub fn slice(v: &Vec<char>, from: usize, to: usize) -> (r: Vec<char>)
    requires
        from <= to <= v.len(),
    ensures
        r@ == v@.subrange(from as int, to as int),
{
    let mut r: Vec<char> = Vec::new();
    let mut i = from;
    while i < to
        invariant
            from <= i <= to <= v.len(),
            r@ == v@.subrange(from as int, i as int),
        decreases to - i,
    {
        r.push(v[i]);
        i += 1;
        assert(r@ == v@.subrange(from as int, i as int));
    }
    r
}

/// Two character sequences are equal.
pub fn chars_eq(a: &Vec<char>, b: &Vec<char>) -> (r: bool)
    ensures
        r == (a@ == b@),
{
    if a.len() != b.len() {
        return false;
    }
    let mut i: usize = 0;
    while i < a.len()
        invariant
            a.len() == b.len(),
            i <= a.len(),
            a@.take(i as int) == b@.take(i as int),
        decreases a.len() - i,
    {
        if a[i] != b[i] {
            assert(a@[i as int] != b@[i as int]);
            return false;
        }
        i += 1;
        assert(a@.take(i as int) == b@.take(i as int));
    }
    assert(a@ == a@.take(a.len() as int));
    assert(b@ == b@.take(b.len() as int));
    true
}

// ---------------------------------------------------------------------------
// Searching
// ---------------------------------------------------------------------------

/// Whether `p` occurs in `s` at index `at`.
pub fn matches_at(s: &Vec<char>, p: &Vec<char>, at: usize) -> (r: bool)
    ensures
        r == occurs_at(s@, p@, at as int),
{
    if at > s.len() || p.len() > s.len() - at {
        return false;
    }
    let mut i: usize = 0;
    while i < p.len()
        invariant
            at + p.len() <= s.len(),
            i <= p.len(),
            s@.subrange(at as int, at + i) == p@.take(i as int),
        decreases p.len() - i,
    {
        if s[at + i] != p[i] {
            assert(s@.subrange(at as int, at + p.len())[i as int] != p@[i as int]);
            return false;
        }
        i += 1;
        assert(s@.subrange(at as int, at + i) == p@.take(i as int));
    }
    assert(p@.take(p.len() as int) == p@);
    true
}

pub fn has_prefix(s: &Vec<char>, p: &Vec<char>) -> (r: bool)
    ensures
        r == starts_with(s@, p@),
{
    let r = matches_at(s, p, 0);
    assert(r ==> s@.take(p.len() as int) == s@.subrange(0, p.len() as int));
    r
}

pub fn has_suffix(s: &Vec<char>, p: &Vec<char>) -> (r: bool)
    ensures
        r == ends_with(s@, p@),
{
    if p.len() > s.len() {
        return false;
    }
    let r = matches_at(s, p, s.len() - p.len());
    assert(s@.skip(s.len() - p.len()) == s@.subrange(s.len() - p.len(), s.len() as int));
    r
}

/// The first index at or after `from` where `p` occurs in `s`.
pub fn find_from(s: &Vec<char>, p: &Vec<char>, from: usize) -> (r: Option<usize>)
    ensures
        r matches Some(i) ==> from <= i && occurs_at(s@, p@, i as int) && forall|j: int|
            from <= j < i ==> !occurs_at(s@, p@, j),
        r is None ==> forall|j: int| from <= j ==> !occurs_at(s@, p@, j),
{
    if p.len() > s.len() {
        return None;
    }
    let last = s.len() - p.len();
    let mut i = from;
    while i <= last
        invariant
            p.len() <= s.len(),
            last == s.len() - p.len(),
            from <= i,
            forall|j: int| from <= j < i ==> !occurs_at(s@, p@, j),
        decreases last - i,
    {
        if matches_at(s, p, i) {
            return Some(i);
        }
        if i == last {
            return None;
        }
        i += 1;
    }
    None
}

/// The first index where `p` occurs in `s` (`str::find`).
pub fn find(s: &Vec<char>, p: &Vec<char>) -> (r: Option<usize>)
    ensures
        r matches Some(i) ==> is_first_occurrence(s@, p@, i as int),
        r is None ==> !contains(s@, p@),
{
    find_from(s, p, 0)
}

/// `p` occurs somewhere in `s`.
pub fn has_substring(s: &Vec<char>, p: &Vec<char>) -> (r: bool)
    ensures
        r == contains(s@, p@),
{
    find(s, p).is_some()
}

/// The first index of character `c` in `s`.
pub fn find_char(s: &Vec<char>, c: char) -> (r: Option<usize>)
    ensures
        r matches Some(i) ==> i < s.len() && s@[i as int] == c && forall|j: int|
            0 <= j < i ==> s@[j] != c,
        r is None ==> forall|j: int| 0 <= j < s.len() ==> s@[j] != c,
{
    let mut i: usize = 0;
    while i < s.len()
        invariant
            i <= s.len(),
            forall|j: int| 0 <= j < i ==> s@[j] != c,
        decreases s.len() - i,
    {
        if s[i] == c {
            return Some(i);
        }
        i += 1;
    }
    None
}

/// The last index of character `c` in `s`.
pub fn rfind_char(s: &Vec<char>, c: char) -> (r: Option<usize>)
    ensures
        r matches Some(i) ==> i < s.len() && s@[i as int] == c && forall|j: int|
            i < j < s.len() ==> s@[j] != c,
        r is None ==> forall|j: int| 0 <= j < s.len() ==> s@[j] != c,
{
    let mut i: usize = s.len();
    while i > 0
        invariant
            i <= s.len(),
            forall|j: int| i <= j < s.len() ==> s@[j] != c,
        decreases i,
    {
        if s[i - 1] == c {
            return Some(i - 1);
        }
        i -= 1;
    }
    None
}

// ---------------------------------------------------------------------------
// Transformations
// ---------------------------------------------------------------------------

pub fn is_ws_char(c: char) -> (r: bool)
    ensures
        r == is_ws(c),
{
    ('\u{9}' <= c && c <= '\u{d}') || c == ' ' || c == '\u{85}' || c == '\u{a0}' || c
        == '\u{1680}' || ('\u{2000}' <= c && c <= '\u{200a}') || c == '\u{2028}' || c
        == '\u{2029}' || c == '\u{202f}' || c == '\u{205f}' || c == '\u{3000}'
}

proof fn lemma_trim_start_skip(s: Seq<char>, i: int)
    requires
        0 <= i <= s.len(),
        forall|j: int| 0 <= j < i ==> is_ws(#[trigger] s[j]),
    ensures
        trim_start(s) == trim_start(s.skip(i)),
    decreases i,
{
    if i > 0 {
        assert(s.skip(1) == s.drop_first());
        lemma_trim_start_skip(s.drop_first(), i - 1);
        assert(s.drop_first().skip(i - 1) == s.skip(i));
    } else {
        assert(s.skip(0) == s);
    }
}

proof fn lemma_trim_end_take(s: Seq<char>, i: int)
    requires
        0 <= i <= s.len(),
        forall|j: int| i <= j < s.len() ==> is_ws(#[trigger] s[j]),
    ensures
        trim_end(s) == trim_end(s.take(i)),
    decreases s.len() - i,
{
    if i < s.len() {
        assert(s.take(s.len() - 1) == s.drop_last());
        lemma_trim_end_take(s.drop_last(), i);
        assert(s.drop_last().take(i) == s.take(i));
    } else {
        assert(s.take(i) == s);
    }
}

/// `str::trim`.
pub fn trim_chars(s: &Vec<char>) -> (r: Vec<char>)
    ensures
        r@ == trim(s@),
{
    let mut a: usize = 0;
    while a < s.len() && is_ws_char(s[a])
        invariant
            a <= s.len(),
            forall|j: int| 0 <= j < a ==> is_ws(#[trigger] s@[j]),
        decreases s.len() - a,
    {
        a += 1;
    }
    proof {
        lemma_trim_start_skip(s@, a as int);
    }
    let mut b: usize = s.len();
    while b > a && is_ws_char(s[b - 1])
        invariant
            a <= b <= s.len(),
            forall|j: int| b <= j < s.len() ==> is_ws(#[trigger] s@[j]),
        decreases b,
    {
        b -= 1;
    }
    let ghost t = s@.skip(a as int);
    proof {
        assert(a == s.len() || !is_ws(t[0]));
        if a < s.len() {
            assert(trim_start(t) == t);
        } else {
            assert(t.len() == 0);
        }
        assert forall|j: int| (b - a) <= j < t.len() implies is_ws(#[trigger] t[j]) by {
            assert(t[j] == s@[a + j]);
        }
        lemma_trim_end_take(t, (b - a) as int);
        let u = t.take((b - a) as int);
        assert(u == s@.subrange(a as int, b as int));
        if b > a {
            assert(u.last() == s@[b - 1]);
        }
    }
    slice(s, a, b)
}

/// `str::trim_end_matches(c)`.
pub fn trim_end_char_chars(s: &Vec<char>, c: char) -> (r: Vec<char>)
    ensures
        r@ == trim_end_char(s@, c),
{
    let mut b: usize = s.len();
    assert(s@.take(b as int) == s@);
    while b > 0 && s[b - 1] == c
        invariant
            b <= s.len(),
            trim_end_char(s@, c) == trim_end_char(s@.take(b as int), c),
        decreases b,
    {
        assert(s@.take(b as int).drop_last() == s@.take(b - 1));
        b -= 1;
    }
    slice(s, 0, b)
}

/// `str::trim_start_matches(c)`.
pub fn trim_start_char_chars(s: &Vec<char>, c: char) -> (r: Vec<char>)
    ensures
        r@ == trim_start_char(s@, c),
{
    let mut a: usize = 0;
    assert(s@.skip(0) == s@);
    while a < s.len() && s[a] == c
        invariant
            a <= s.len(),
            trim_start_char(s@, c) == trim_start_char(s@.skip(a as int), c),
        decreases s.len() - a,
    {
        assert(s@.skip(a as int).drop_first() == s@.skip(a + 1));
        a += 1;
    }
    assert(s@.skip(a as int) == s@.subrange(a as int, s.len() as int));
    slice(s, a, s.len())
}

pub fn ascii_lower_char_exec(c: char) -> (r: char)
    ensures
        r == ascii_lower_char(c),
{
    if 'A' <= c && c <= 'Z' {
        let b = (c as u32 + 32) as u8;
        b as char
    } else {
        c
    }
}

/// `str::to_ascii_lowercase`.
pub fn ascii_lower_chars(s: &Vec<char>) -> (r: Vec<char>)
    ensures
        r@ == ascii_lower(s@),
{
    let mut r: Vec<char> = Vec::new();
    let mut i: usize = 0;
    while i < s.len()
        invariant
            i <= s.len(),
            r@ == ascii_lower(s@.take(i as int)),
        decreases s.len() - i,
    {
        r.push(ascii_lower_char_exec(s[i]));
        i += 1;
        assert(ascii_lower(s@.take(i as int)) == ascii_lower(s@.take(i - 1)).push(
            ascii_lower_char(s@[i - 1]),
        ));
    }
    assert(s@.take(s.len() as int) == s@);
    r
}

/// `s` with every occurrence of `c` removed (`str::replace(c, "")`).
pub fn remove_char_chars(s: &Vec<char>, c: char) -> (r: Vec<char>)
    ensures
        r@ == remove_char(s@, c),
{
    let mut r: Vec<char> = Vec::new();
    let mut i: usize = 0;
    while i < s.len()
        invariant
            i <= s.len(),
            r@ == remove_char(s@.take(i as int), c),
        decreases s.len() - i,
    {
        let ghost prev = s@.take(i as int);
        assert(s@.take(i + 1) == prev.push(s@[i as int]));
        proof {
                        assert(remove_char(prev.push(s@[i as int]), c) == if s@[i as int] != c {
                remove_char(prev, c).push(s@[i as int])
            } else {
                remove_char(prev, c)
            }) by {
                reveal(Seq::filter);
                assert(prev.push(s@[i as int]).drop_last() == prev);
            }
        }
        if s[i] != c {
            r.push(s[i]);
        }
        i += 1;
    }
    assert(s@.take(s.len() as int) == s@);
    r
}

proof fn lemma_replace_all_skip(s: Seq<char>, from: Seq<char>, to: Seq<char>, i: int)
    requires
        from.len() > 0,
        0 <= i <= s.len(),
    ensures
        starts_with(s.skip(i), from) ==> replace_all(s.skip(i), from, to) == to + replace_all(
            s.skip(i + from.len()),
            from,
            to,
        ),
        !starts_with(s.skip(i), from) && i < s.len() ==> replace_all(s.skip(i), from, to)
            == seq![s[i]] + replace_all(s.skip(i + 1), from, to),
{
    let t = s.skip(i);
    if starts_with(t, from) {
        assert(t.skip(from.len() as int) == s.skip(i + from.len()));
    }
    if i < s.len() {
        assert(t.drop_first() == s.skip(i + 1));
    }
}

/// `str::replace(from, to)` for a non-empty `from`.
pub fn replace_all_chars(s: &Vec<char>, from: &Vec<char>, to: &Vec<char>) -> (r: Vec<char>)
    requires
        from.len() > 0,
    ensures
        r@ == replace_all(s@, from@, to@),
{
    let mut r: Vec<char> = Vec::new();
    let mut i: usize = 0;
    assert(s@.skip(0) == s@);
    while i < s.len()
        invariant
            from.len() > 0,
            i <= s.len(),
            r@ + replace_all(s@.skip(i as int), from@, to@) == replace_all(s@, from@, to@),
        decreases s.len() - i,
    {
        proof {
            lemma_replace_all_skip(s@, from@, to@, i as int);
        }
        if matches_at(s, from, i) {
            assert(s@.skip(i as int).take(from.len() as int) == s@.subrange(
                i as int,
                i + from.len(),
            ));
            append(&mut r, to);
            i += from.len();
        } else {
            assert(!starts_with(s@.skip(i as int), from@)) by {
                if starts_with(s@.skip(i as int), from@) {
                    assert(s@.skip(i as int).take(from.len() as int) == s@.subrange(
                        i as int,
                        i + from.len(),
                    ));
                }
            }
            r.push(s[i]);
            i += 1;
        }
    }
    assert(s@.skip(i as int).len() == 0);
    r
}

/// `parts` separated by `sep` (`[..].join(sep)`).
pub fn join_chars(parts: &Vec<Vec<char>>, sep: &Vec<char>) -> (r: Vec<char>)
    ensures
        r@ == join(vec_views(parts@), sep@),
{
    let ghost views = vec_views(parts@);
    let mut r: Vec<char> = Vec::new();
    let mut i: usize = 0;
    while i < parts.len()
        invariant
            i <= parts.len(),
            views == vec_views(parts@),
            r@ == join(views.take(i as int), sep@),
        decreases parts.len() - i,
    {
        let ghost prev = views.take(i as int);
        assert(views.take(i + 1).drop_last() == prev);
        if i > 0 {
            append(&mut r, sep);
        }
        append(&mut r, &parts[i]);
        i += 1;
        assert(views.take(i as int).last() == parts@[i - 1]@);
    }
    assert(views.take(parts.len() as int) == views);
    r
}

/// `str::split(sep)` for a character.
pub fn split_char_chars(s: &Vec<char>, sep: char) -> (r: Vec<Vec<char>>)
    ensures
        vec_views(r@) == split_char(s@, sep),
{
    let mut parts: Vec<Vec<char>> = Vec::new();
    let mut cur: Vec<char> = Vec::new();
    let mut i: usize = 0;
    assert(s@.take(0) =~= Seq::<char>::empty());
    assert(vec_views(parts@).push(cur@) =~= split_char(s@.take(0), sep));
    while i < s.len()
        invariant
            i <= s.len(),
            vec_views(parts@).push(cur@) == split_char(s@.take(i as int), sep),
        decreases s.len() - i,
    {
        let ghost prev = s@.take(i as int);
        assert(s@.take(i + 1).drop_last() == prev);
        assert(s@.take(i + 1).last() == s@[i as int]);
        if s[i] == sep {
            let done = cur;
            parts.push(done);
            cur = Vec::new();
            assert(vec_views(parts@).push(cur@) =~= split_char(s@.take(i + 1), sep));
        } else {
            let ghost before = vec_views(parts@).push(cur@);
            cur.push(s[i]);
            assert(vec_views(parts@).push(cur@) =~= before.update(
                before.len() - 1,
                before.last().push(s@[i as int]),
            ));
        }
        i += 1;
    }
    assert(s@.take(s.len() as int) == s@);
    parts.push(cur);
    parts
}

/// `str::split_once(c)`.
pub fn split_once_chars(s: &Vec<char>, c: char) -> (r: Option<(Vec<char>, Vec<char>)>)
    ensures
        match split_once(s@, c) {
            Some((a, b)) => r matches Some((x, y)) && x@ == a && y@ == b,
            None => r is None,
        },
{
    match find_char(s, c) {
        Some(i) => {
            proof {
                let k = choose|k: int|
                    0 <= k < s@.len() && s@[k] == c && forall|j: int| 0 <= j < k ==> s@[j] != c;
                assert(k == i);
            }
            Some((slice(s, 0, i), slice(s, i + 1, s.len())))
        },
        None => None,
    }
}

/// The length of `s` in UTF-8 bytes (`str::len`).
pub fn byte_len(s: &str) -> (r: usize)
    ensures
        r == encode_utf8(s@).len(),
{
    let b = s.as_bytes();
    b.len()
}

// ---------------------------------------------------------------------------
// Ordering of strings
// ---------------------------------------------------------------------------

/// `a < b` in the order of `String`'s `Ord` (code point by code point, which
/// is the order of the UTF-8 bytes).
pub open spec fn lex_lt(a: Seq<char>, b: Seq<char>) -> bool
    decreases a.len(),
{
    if a.len() == 0 {
        b.len() > 0
    } else if b.len() == 0 {
        false
    } else if a[0] != b[0] {
        a[0] < b[0]
    } else {
        lex_lt(a.drop_first(), b.drop_first())
    }
}

/// Strictly increasing: sorted, with no element twice.
pub open spec fn strictly_sorted(s: Seq<Seq<char>>) -> bool {
    forall|i: int, j: int| 0 <= i < j < s.len() ==> lex_lt(#[trigger] s[i], #[trigger] s[j])
}

pub proof fn lemma_lex_irreflexive(a: Seq<char>)
    ensures
        !lex_lt(a, a),
    decreases a.len(),
{
    if a.len() > 0 {
        lemma_lex_irreflexive(a.drop_first());
    }
}

pub proof fn lemma_lex_transitive(a: Seq<char>, b: Seq<char>, c: Seq<char>)
    requires
        lex_lt(a, b),
        lex_lt(b, c),
    ensures
        lex_lt(a, c),
    decreases a.len(),
{
    if a.len() > 0 && b.len() > 0 && c.len() > 0 && a[0] == b[0] && b[0] == c[0] {
        lemma_lex_transitive(a.drop_first(), b.drop_first(), c.drop_first());
    }
}

pub proof fn lemma_lex_total(a: Seq<char>, b: Seq<char>)
    requires
        a != b,
    ensures
        lex_lt(a, b) || lex_lt(b, a),
    decreases a.len(),
{
    if a.len() > 0 && b.len() > 0 && a[0] == b[0] {
        if a.drop_first() == b.drop_first() {
            assert(a == seq![a[0]] + a.drop_first());
            assert(b == seq![b[0]] + b.drop_first());
        }
        lemma_lex_total(a.drop_first(), b.drop_first());
    } else if a.len() == 0 && b.len() == 0 {
        assert(a == b);
    }
}

/// `a < b` in `String` order.
pub fn lex_less(a: &Vec<char>, b: &Vec<char>) -> (r: bool)
    ensures
        r == lex_lt(a@, b@),
{
    let mut i: usize = 0;
    proof {
        assert(a@.skip(0) == a@);
        assert(b@.skip(0) == b@);
    }
    while i < a.len() && i < b.len() && a[i] == b[i]
        invariant
            i <= a.len(),
            i <= b.len(),
            lex_lt(a@, b@) == lex_lt(a@.skip(i as int), b@.skip(i as int)),
        decreases a.len() - i,
    {
        proof {
            let (x, y) = (a@.skip(i as int), b@.skip(i as int));
            assert(x.drop_first() == a@.skip(i + 1));
            assert(y.drop_first() == b@.skip(i + 1));
        }
        i += 1;
    }
    if i == a.len() {
        i < b.len()
    } else if i == b.len() {
        false
    } else {
        a[i] < b[i]
    }
}

/// Adds `x` to the strictly sorted `v`, unless it is already there.
pub fn insert_sorted_unique(v: &mut Vec<Vec<char>>, x: Vec<char>)
    requires
        strictly_sorted(vec_views(old(v)@)),
    ensures
        strictly_sorted(vec_views(final(v)@)),
        vec_views(final(v)@).to_set() == vec_views(old(v)@).to_set().insert(x@),
{
    let ghost before = vec_views(v@);
    let mut p: usize = 0;
    while p < v.len() && lex_less(&v[p], &x)
        invariant
            p <= v.len(),
            before == vec_views(v@),
            forall|i: int| 0 <= i < p ==> lex_lt(#[trigger] before[i], x@),
        decreases v.len() - p,
    {
        p += 1;
    }
    if p < v.len() && chars_eq(&v[p], &x) {
        proof {
            assert(before[p as int] == x@);
            assert(before.to_set().insert(x@) =~= before.to_set());
        }
        return;
    }
    proof {
        if p < before.len() {
            assert(!lex_lt(before[p as int], x@));
            lemma_lex_total(before[p as int], x@);
        }
    }
    v.insert(p, x);
    proof {
        let after = vec_views(v@);
        assert(after =~= before.insert(p as int, x@));
        assert forall|i: int, j: int| 0 <= i < j < after.len() implies lex_lt(
            #[trigger] after[i],
            #[trigger] after[j],
        ) by {
            if j < p {
            } else if j == p {
                assert(lex_lt(before[i], x@));
            } else if i < p {
                assert(after[j] == before[j - 1]);
                assert(lex_lt(before[i], before[p as int]) || i == p);
                if i < p {
                    assert(lex_lt(before[i], x@));
                    lemma_lex_transitive(before[i], x@, before[p as int]);
                    if j - 1 > p {
                        lemma_lex_transitive(before[i], before[p as int], before[j - 1]);
                    }
                }
            } else if i == p {
                assert(after[j] == before[j - 1]);
                if j - 1 > p {
                    lemma_lex_transitive(x@, before[p as int], before[j - 1]);
                }
            } else {
                assert(after[i] == before[i - 1]);
                assert(after[j] == before[j - 1]);
            }
        }
        assert forall|y: Seq<char>| after.to_set().contains(y) <==> before.to_set().insert(
            x@,
        ).contains(y) by {
            if after.to_set().contains(y) {
                let k = choose|k: int| 0 <= k < after.len() && after[k] == y;
                if k < p {
                    assert(before[k] == y);
                } else if k > p {
                    assert(before[k - 1] == y);
                }
            }
            if before.to_set().contains(y) {
                let k = choose|k: int| 0 <= k < before.len() && before[k] == y;
                if k < p {
                    assert(after[k] == y);
                } else {
                    assert(after[k + 1] == y);
                }
            }
            if y == x@ {
                assert(after[p as int] == y);
            }
        }
        assert(after.to_set() =~= before.to_set().insert(x@));
    }
}

// ---------------------------------------------------------------------------
// Numbers
// ---------------------------------------------------------------------------

pub fn is_digit_char(c: char) -> (r: bool)
    ensures
        r == is_digit(c),
{
    '0' <= c && c <= '9'
}

proof fn lemma_digits_value_push(s: Seq<char>, c: char)
    ensures
        digits_value(s.push(c)) == digits_value(s) * 10 + digit_value(c),
{
    assert(s.push(c).drop_last() == s);
}

/// The value of the digits `v[from..]`, or `None` when one of them is not a
/// digit, there are none, or the value exceeds `u64::MAX`.
fn digits_u64(v: &Vec<char>, from: usize) -> (r: Option<u64>)
    requires
        from <= v.len(),
    ensures
        ({
            let d = v@.skip(from as int);
            &&& r matches Some(n) ==> d.len() > 0 && all_digits(d) && n == digits_value(d)
            &&& r is None ==> !(d.len() > 0 && all_digits(d)) || digits_value(d) > u64::MAX
        }),
{
    let ghost d = v@.skip(from as int);
    if from == v.len() {
        return None;
    }
    let mut acc: u64 = 0;
    let mut i = from;
    while i < v.len()
        invariant
            from <= i <= v.len(),
            d == v@.skip(from as int),
            all_digits(v@.subrange(from as int, i as int)),
            acc == digits_value(v@.subrange(from as int, i as int)),
        decreases v.len() - i,
    {
        let c = v[i];
        proof {
            assert(v@.subrange(from as int, i + 1) == v@.subrange(from as int, i as int).push(c));
            lemma_digits_value_push(v@.subrange(from as int, i as int), c);
        }
        if !is_digit_char(c) {
            assert(d[i - from] == c);
            return None;
        }
        let dv = (c as u32 - '0' as u32) as u64;
        match acc.checked_mul(10) {
            Some(m) => match m.checked_add(dv) {
                Some(n) => {
                    acc = n;
                },
                None => {
                    proof {
                        if all_digits(d) {
                            lemma_digits_value_monotone(d, (i + 1 - from) as int);
                            assert(d.take(i + 1 - from) == v@.subrange(from as int, i + 1));
                        }
                    }
                    return None;
                },
            },
            None => {
                proof {
                    if all_digits(d) {
                        lemma_digits_value_monotone(d, (i + 1 - from) as int);
                        assert(d.take(i + 1 - from) == v@.subrange(from as int, i + 1));
                    }
                }
                return None;
            },
        }
        i += 1;
    }
    assert(d == v@.subrange(from as int, v.len() as int));
    Some(acc)
}

/// The decimal form of a number is a non-empty run of digits that denotes it.
pub proof fn lemma_decimal_digits(n: nat)
    ensures
        decimal(n).len() > 0,
        all_digits(decimal(n)),
        digits_value(decimal(n)) == n,
    decreases n,
{
    let k = n % 10;
    assert(digit_char(k) as u32 == 48 + k);
    assert(digit_value(digit_char(k)) == k);
    if n < 10 {
        assert(decimal(n) == Seq::<char>::empty().push(digit_char(n)));
        lemma_digits_value_push(Seq::<char>::empty(), digit_char(n));
    } else {
        lemma_decimal_digits(n / 10);
        let d = decimal(n / 10);
        lemma_digits_value_push(d, digit_char(n % 10));
        assert((n / 10) * 10 + n % 10 == n);
        assert forall|i: int| 0 <= i < decimal(n).len() implies is_digit(#[trigger] decimal(n)[i]) by {
            if i < d.len() {
                assert(decimal(n)[i] == d[i]);
            }
        }
    }
}

/// A prefix of a digit string never has a larger value.
pub proof fn lemma_digits_value_monotone(d: Seq<char>, k: int)
    requires
        0 <= k <= d.len(),
        all_digits(d),
    ensures
        digits_value(d.take(k)) <= digits_value(d),
    decreases d.len() - k,
{
    if k < d.len() {
        lemma_digits_value_monotone(d, k + 1);
        assert(d.take(k + 1).drop_last() == d.take(k));
        assert(is_digit(d[k]));
    } else {
        assert(d.take(k) == d);
    }
}

/// `str::parse::<u64>` and, with a smaller `max`, the narrower unsigned types.
pub fn parse_unsigned_chars(v: &Vec<char>, max: u64) -> (r: Option<u64>)
    ensures
        r matches Some(n) ==> parse_unsigned(v@, max as nat) == Some(n as nat),
        r is None ==> parse_unsigned(v@, max as nat) is None,
{
    let from: usize = if v.len() > 0 && v[0] == '+' { 1 } else { 0 };
    proof {
        if from == 1 {
            assert(v@.skip(1) == v@.drop_first());
        } else {
            assert(v@.skip(0) == v@);
        }
    }
    match digits_u64(v, from) {
        Some(n) => if n <= max { Some(n) } else { None },
        None => None,
    }
}

/// `str::parse::<i64>` and, with narrower bounds, the smaller signed types.
pub fn parse_signed_chars(v: &Vec<char>, min: i64, max: i64) -> (r: Option<i64>)
    requires
        min <= 0 <= max,
    ensures
        r matches Some(n) ==> parse_signed(v@, min as int, max as int) == Some(n as int),
        r is None ==> parse_signed(v@, min as int, max as int) is None,
{
    if v.len() > 0 && v[0] == '-' {
        assert(v@.skip(1) == v@.drop_first());
        match digits_u64(v, 1) {
            Some(n) => {
                if (n as i128) <= -(min as i128) {
                    let r: i64 = if n == 0 { 0 } else { -((n - 1) as i64) - 1 };
                    Some(r)
                } else {
                    None
                }
            },
            None => None,
        }
    } else {
        match parse_unsigned_chars(v, max as u64) {
            Some(n) => Some(n as i64),
            None => None,
        }
    }
}

pub fn digit_char_exec(d: u64) -> (c: char)
    requires
        d < 10,
    ensures
        c == digit_char(d as nat),
{
    let b = (48 + d) as u8;
    b as char
}

/// `n.to_string()` for an unsigned integer, as characters.
pub fn decimal_chars(n: u64) -> (r: Vec<char>)
    ensures
        r@ == decimal(n as nat),
    decreases n,
{
    if n < 10 {
        let mut v = Vec::new();
        v.push(digit_char_exec(n));
        v
    } else {
        let mut v = decimal_chars(n / 10);
        v.push(digit_char_exec(n % 10));
        v
    }
}

pub fn hex_digit_exec(d: u8) -> (c: char)
    requires
        d < 16,
    ensures
        c == hex_digit(d as nat),
{
    if d < 10 {
        digit_char_exec(d as u64)
    } else {
        let b = (97 + (d - 10)) as u8;
        b as char
    }
}

/// Two lower-case hexadecimal digits per byte.
pub fn hex_lower_chars(bytes: &Vec<u8>) -> (r: Vec<char>)
    ensures
        r@ == hex_lower(bytes@),
{
    let mut r: Vec<char> = Vec::new();
    let mut i: usize = 0;
    while i < bytes.len()
        invariant
            i <= bytes.len(),
            r@ == hex_lower(bytes@.take(i as int)),
        decreases bytes.len() - i,
    {
        let b = bytes[i];
        r.push(hex_digit_exec(b / 16));
        r.push(hex_digit_exec(b % 16));
        i += 1;
        assert(bytes@.take(i as int).drop_last() == bytes@.take(i - 1));
    }
    assert(bytes@.take(bytes.len() as int) == bytes@);
    r
}

} // verus!
