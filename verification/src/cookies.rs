//! GitCode login cookies: which ones count, how new ones are merged in, and
//! which ones go with a request.
//!
//! Times are microseconds since the Unix epoch.
use crate::foreign::{opt_view, parse_url, url_parse};
use crate::foreign::{http_date_micros, parse_http_date};
use crate::text::{
    append, append_str, ascii_lower, ascii_lower_chars, byte_len, chars_eq, chars_of, ends_with,
    has_prefix, has_suffix, insert_sorted_unique, join, join_chars, lemma_split_char_nonempty,
    parse_signed, parse_signed_chars, split_char, split_char_chars, split_once, split_once_chars,
    starts_with, strictly_sorted, string_of, trim, trim_chars, trim_end_char, trim_end_char_chars,
    trim_start_char, trim_start_char_chars, vec_views,
};
use vstd::utf8::encode_utf8;
use vstd::prelude::*;

verus! {

pub const GITCODE_HOST_SUFFIX: &'static str = "gitcode.com";

/// The cookies without which a GitCode login does not count.
pub const REQUIRED_COOKIE_A: &'static str = "GITCODE_ACCESS_TOKEN";

pub const REQUIRED_COOKIE_B: &'static str = "GITCODE_REFRESH_TOKEN";

/// One browser cookie. `expires` is in microseconds since the Unix epoch; a
/// negative value or `None` marks a cookie that does not expire.
pub struct Cookie {
    pub name: String,
    pub value: String,
    pub domain: String,
    pub path: String,
    pub expires: Option<i64>,
    pub secure: bool,
    pub http_only: bool,
    pub same_site: Option<String>,
}

/// The content of a cookie, as plain values.
pub struct CookieModel {
    pub name: Seq<char>,
    pub value: Seq<char>,
    pub domain: Seq<char>,
    pub path: Seq<char>,
    pub expires: Option<i64>,
    pub secure: bool,
    pub http_only: bool,
    pub same_site: Option<Seq<char>>,
}

impl View for Cookie {
    type V = CookieModel;

    open spec fn view(&self) -> CookieModel {
        CookieModel {
            name: self.name@,
            value: self.value@,
            domain: self.domain@,
            path: self.path@,
            expires: self.expires,
            secure: self.secure,
            http_only: self.http_only,
            same_site: opt_view(self.same_site),
        }
    }
}

impl Clone for Cookie {
    fn clone(&self) -> (r: Self)
        ensures
            r == *self,
    {
        Cookie {
            name: self.name.clone(),
            value: self.value.clone(),
            domain: self.domain.clone(),
            path: self.path.clone(),
            expires: self.expires,
            secure: self.secure,
            http_only: self.http_only,
            same_site: match &self.same_site {
                Some(s) => Some(s.clone()),
                None => None,
            },
        }
    }
}

/// A set of login cookies and where they came from.
pub struct CookieAuth {
    pub cookies: Vec<Cookie>,
    pub source: String,
}

// ---------------------------------------------------------------------------
// Domains and expiry
// ---------------------------------------------------------------------------

/// A cookie domain belongs to GitCode: ignoring leading dots and case, it
/// is `gitcode.com` or ends in `.gitcode.com`.
pub open spec fn gitcode_domain(domain: Seq<char>) -> bool {
    let clean = ascii_lower(trim_start_char(domain, '.'));
    clean == GITCODE_HOST_SUFFIX@ || ends_with(clean, "."@ + GITCODE_HOST_SUFFIX@)
}

pub fn is_gitcode_domain(domain: &str) -> (r: bool)
    ensures
        r == gitcode_domain(domain@),
{
    let clean = ascii_lower_chars(&trim_start_char_chars(&chars_of(domain), '.'));
    let suffix = chars_of(GITCODE_HOST_SUFFIX);
    let mut dotted = chars_of(".");
    crate::text::append(&mut dotted, &suffix);
    chars_eq(&clean, &suffix) || has_suffix(&clean, &dotted)
}

/// A cookie for `cookie_domain` goes to `host`: ignoring case, a domain
/// that starts with `.` matches itself without the dot and its subdomains,
/// any other domain only itself.
pub open spec fn domain_match(cookie_domain: Seq<char>, host: Seq<char>) -> bool {
    let d = ascii_lower(cookie_domain);
    let h = ascii_lower(host);
    if starts_with(d, "."@) {
        h == d.skip(1) || ends_with(h, "."@ + d.skip(1))
    } else {
        h == d
    }
}

pub fn domain_matches(cookie_domain: &str, host: &str) -> (r: bool)
    ensures
        r == domain_match(cookie_domain@, host@),
{
    proof {
        reveal_strlit(".");
    }
    let d = ascii_lower_chars(&chars_of(cookie_domain));
    let h = ascii_lower_chars(&chars_of(host));
    if d.len() > 0 && d[0] == '.' {
        assert(d@.take(1) == "."@);
        let clean = crate::text::slice(&d, 1, d.len());
        assert(clean@ == d@.skip(1));
        let mut dotted = chars_of(".");
        crate::text::append(&mut dotted, &clean);
        chars_eq(&h, &clean) || has_suffix(&h, &dotted)
    } else {
        assert(!starts_with(d@, "."@)) by {
            if starts_with(d@, "."@) {
                assert(d@.take(1)[0] == '.');
            }
        }
        chars_eq(&h, &d)
    }
}

/// A cookie counts as expired at `now` with `margin` to spare: it has a
/// non-negative expiry no later than `now + margin`.
pub open spec fn expired_at(c: Cookie, margin: i64, now: i64) -> bool {
    match c.expires {
        None => false,
        Some(e) => if e < 0 {
            false
        } else {
            e <= now + margin
        },
    }
}

pub fn cookie_expired_at(cookie: &Cookie, margin: i64, now: i64) -> (r: bool)
    ensures
        r == expired_at(*cookie, margin, now),
{
    match cookie.expires {
        None => false,
        Some(e) => if e < 0 {
            false
        } else {
            (e as i128) <= (now as i128) + (margin as i128)
        },
    }
}

/// Whether `cookie` has expired, `margin` microseconds from now.
pub fn cookie_expired(cookie: &Cookie, margin: i64) -> (r: bool)
    ensures
        exists|now: i64| r == expired_at(*cookie, margin, now),
{
    cookie_expired_at(cookie, margin, crate::foreign::now_micros())
}

// ---------------------------------------------------------------------------
// Validity
// ---------------------------------------------------------------------------

/// A GitCode cookie named `name` is present and unexpired at `now + margin`.
pub open spec fn has_live(cookies: Seq<Cookie>, name: Seq<char>, margin: i64, now: i64) -> bool {
    exists|i: int|
        0 <= i < cookies.len() && #[trigger] cookies[i].name@ == name && gitcode_domain(
            cookies[i].domain@,
        ) && !expired_at(cookies[i], margin, now)
}

/// A login is valid: both required cookies are present for a GitCode
/// domain and do not expire within `margin` of `now`.
pub open spec fn valid_at(cookies: Seq<Cookie>, margin: i64, now: i64) -> bool {
    has_live(cookies, REQUIRED_COOKIE_A@, margin, now) && has_live(
        cookies,
        REQUIRED_COOKIE_B@,
        margin,
        now,
    )
}

fn has_live_exec(cookies: &Vec<Cookie>, name: &str, margin: i64, now: i64) -> (r: bool)
    ensures
        r == has_live(cookies@, name@, margin, now),
{
    let n = chars_of(name);
    let mut i: usize = 0;
    while i < cookies.len()
        invariant
            i <= cookies.len(),
            n@ == name@,
            forall|j: int|
                0 <= j < i ==> !(#[trigger] cookies@[j].name@ == name@ && gitcode_domain(
                    cookies@[j].domain@,
                ) && !expired_at(cookies@[j], margin, now)),
        decreases cookies.len() - i,
    {
        let c = &cookies[i];
        if chars_eq(&chars_of(c.name.as_str()), &n) && is_gitcode_domain(c.domain.as_str())
            && !cookie_expired_at(c, margin, now) {
            return true;
        }
        i += 1;
    }
    false
}

// ---------------------------------------------------------------------------
// Keys and merging
// ---------------------------------------------------------------------------

/// Cookies are told apart by domain, path and name.
pub open spec fn key_of(c: Cookie) -> (Seq<char>, Seq<char>, Seq<char>) {
    (c.domain@, c.path@, c.name@)
}

pub open spec fn has_key(v: Seq<Cookie>, k: (Seq<char>, Seq<char>, Seq<char>)) -> bool {
    exists|i: int| 0 <= i < v.len() && key_of(#[trigger] v[i]) == k
}

/// No two cookies share domain, path and name.
pub open spec fn unique_keys(v: Seq<Cookie>) -> bool {
    forall|i: int, j: int|
        0 <= i < v.len() && 0 <= j < v.len() && i != j ==> key_of(#[trigger] v[i]) != key_of(
            #[trigger] v[j],
        )
}

/// The cookies of `v` by key.
pub open spec fn cookie_map(v: Seq<Cookie>) -> Map<(Seq<char>, Seq<char>, Seq<char>), Cookie> {
    Map::new(
        |k: (Seq<char>, Seq<char>, Seq<char>)| has_key(v, k),
        |k: (Seq<char>, Seq<char>, Seq<char>)|
            v[choose|i: int| 0 <= i < v.len() && key_of(v[i]) == k],
    )
}

/// Loading cookies one after another into a map by key; a later cookie
/// replaces an earlier one with the same key.
pub open spec fn loaded(cs: Seq<Cookie>) -> Map<(Seq<char>, Seq<char>, Seq<char>), Cookie>
    decreases cs.len(),
{
    if cs.len() == 0 {
        Map::empty()
    } else {
        loaded(cs.drop_last()).insert(key_of(cs.last()), cs.last())
    }
}

/// One cookie received: ignored unless for a GitCode domain; removes its key
/// when already expired at `now`, else replaces it.
pub open spec fn merge_one(
    m: Map<(Seq<char>, Seq<char>, Seq<char>), Cookie>,
    c: Cookie,
    now: i64,
) -> Map<(Seq<char>, Seq<char>, Seq<char>), Cookie> {
    if !gitcode_domain(c.domain@) {
        m
    } else if expired_at(c, 0, now) {
        m.remove(key_of(c))
    } else {
        m.insert(key_of(c), c)
    }
}

/// The cookies received, merged in order.
pub open spec fn merged(
    m: Map<(Seq<char>, Seq<char>, Seq<char>), Cookie>,
    news: Seq<Cookie>,
    now: i64,
) -> Map<(Seq<char>, Seq<char>, Seq<char>), Cookie>
    decreases news.len(),
{
    if news.len() == 0 {
        m
    } else {
        merge_one(merged(m, news.drop_last(), now), news.last(), now)
    }
}

proof fn lemma_map_update(v: Seq<Cookie>, i: int, c: Cookie)
    requires
        unique_keys(v),
        0 <= i < v.len(),
        key_of(v[i]) == key_of(c),
    ensures
        unique_keys(v.update(i, c)),
        cookie_map(v.update(i, c)) == cookie_map(v).insert(key_of(c), c),
{
    let w = v.update(i, c);
    assert forall|a: int, b: int|
        0 <= a < w.len() && 0 <= b < w.len() && a != b implies key_of(#[trigger] w[a]) != key_of(
        #[trigger] w[b],
    ) by {
        assert(key_of(w[a]) == key_of(v[a]));
        assert(key_of(w[b]) == key_of(v[b]));
    }
    assert forall|k| #[trigger] has_key(w, k) <==> has_key(v, k) by {
        if has_key(w, k) {
            let a = choose|a: int| 0 <= a < w.len() && key_of(w[a]) == k;
            assert(key_of(v[a]) == k);
        }
        if has_key(v, k) {
            let a = choose|a: int| 0 <= a < v.len() && key_of(v[a]) == k;
            assert(key_of(w[a]) == k);
        }
    }
    assert forall|k| #[trigger] has_key(w, k) implies cookie_map(w)[k] == cookie_map(v).insert(
        key_of(c),
        c,
    )[k] by {
        let a = choose|a: int| 0 <= a < w.len() && key_of(w[a]) == k;
        let b = choose|b: int| 0 <= b < v.len() && key_of(v[b]) == k;
        assert(key_of(v[a]) == k);
        assert(a == b);
        if k == key_of(c) {
            assert(a == i);
        }
    }
    assert(cookie_map(w) =~= cookie_map(v).insert(key_of(c), c));
}

proof fn lemma_map_push(v: Seq<Cookie>, c: Cookie)
    requires
        unique_keys(v),
        !has_key(v, key_of(c)),
    ensures
        unique_keys(v.push(c)),
        cookie_map(v.push(c)) == cookie_map(v).insert(key_of(c), c),
{
    let w = v.push(c);
    assert forall|a: int, b: int|
        0 <= a < w.len() && 0 <= b < w.len() && a != b implies key_of(#[trigger] w[a]) != key_of(
        #[trigger] w[b],
    ) by {
        if a == v.len() {
            assert(key_of(v[b]) != key_of(c));
        } else if b == v.len() {
            assert(key_of(v[a]) != key_of(c));
        } else {
            assert(w[a] == v[a]);
            assert(w[b] == v[b]);
        }
    }
    assert forall|k| #[trigger] has_key(w, k) <==> (has_key(v, k) || k == key_of(c)) by {
        if has_key(w, k) {
            let a = choose|a: int| 0 <= a < w.len() && key_of(w[a]) == k;
            if a < v.len() {
                assert(key_of(v[a]) == k);
            }
        }
        if has_key(v, k) {
            let a = choose|a: int| 0 <= a < v.len() && key_of(v[a]) == k;
            assert(key_of(w[a]) == k);
        }
        if k == key_of(c) {
            assert(key_of(w[v.len() as int]) == k);
        }
    }
    assert forall|k| #[trigger] has_key(w, k) implies cookie_map(w)[k] == cookie_map(v).insert(
        key_of(c),
        c,
    )[k] by {
        let a = choose|a: int| 0 <= a < w.len() && key_of(w[a]) == k;
        if k == key_of(c) {
            assert(key_of(w[v.len() as int]) == k);
            if a != v.len() {
                assert(key_of(v[a]) == k);
            }
        } else {
            assert(a < v.len());
            let b = choose|b: int| 0 <= b < v.len() && key_of(v[b]) == k;
            assert(key_of(w[b]) == k);
            assert(a == b);
        }
    }
    assert(cookie_map(w) =~= cookie_map(v).insert(key_of(c), c));
}

proof fn lemma_map_remove(v: Seq<Cookie>, i: int)
    requires
        unique_keys(v),
        0 <= i < v.len(),
    ensures
        unique_keys(v.remove(i)),
        cookie_map(v.remove(i)) == cookie_map(v).remove(key_of(v[i])),
{
    let w = v.remove(i);
    let k0 = key_of(v[i]);
    assert forall|a: int, b: int|
        0 <= a < w.len() && 0 <= b < w.len() && a != b implies key_of(#[trigger] w[a]) != key_of(
        #[trigger] w[b],
    ) by {
        let a2 = if a < i {
            a
        } else {
            a + 1
        };
        let b2 = if b < i {
            b
        } else {
            b + 1
        };
        assert(w[a] == v[a2]);
        assert(w[b] == v[b2]);
    }
    assert forall|k| #[trigger] has_key(w, k) <==> (has_key(v, k) && k != k0) by {
        if has_key(w, k) {
            let a = choose|a: int| 0 <= a < w.len() && key_of(w[a]) == k;
            let a2 = if a < i {
                a
            } else {
                a + 1
            };
            assert(w[a] == v[a2]);
            assert(key_of(v[a2]) == k);
        }
        if has_key(v, k) && k != k0 {
            let a = choose|a: int| 0 <= a < v.len() && key_of(v[a]) == k;
            if a < i {
                assert(w[a] == v[a]);
            } else {
                assert(a != i);
                assert(w[a - 1] == v[a]);
            }
        }
    }
    assert forall|k| #[trigger] has_key(w, k) implies cookie_map(w)[k] == cookie_map(v)[k] by {
        let a = choose|a: int| 0 <= a < w.len() && key_of(w[a]) == k;
        let a2 = if a < i {
            a
        } else {
            a + 1
        };
        assert(w[a] == v[a2]);
        let b = choose|b: int| 0 <= b < v.len() && key_of(v[b]) == k;
        assert(a2 == b);
    }
    assert(cookie_map(w) =~= cookie_map(v).remove(k0));
}

/// The index of the cookie with the same key as `c`.
fn find_key(v: &Vec<Cookie>, c: &Cookie) -> (r: Option<usize>)
    ensures
        r matches Some(i) ==> i < v.len() && key_of(v@[i as int]) == key_of(*c),
        r is None ==> !has_key(v@, key_of(*c)),
{
    let mut i: usize = 0;
    while i < v.len()
        invariant
            i <= v.len(),
            forall|j: int| 0 <= j < i ==> key_of(#[trigger] v@[j]) != key_of(*c),
        decreases v.len() - i,
    {
        if v[i].domain == c.domain && v[i].path == c.path && v[i].name == c.name {
            return Some(i);
        }
        i += 1;
    }
    None
}

/// Puts `c` in place of the cookie with its key, or adds it.
fn put_cookie(v: &mut Vec<Cookie>, c: Cookie)
    requires
        unique_keys(old(v)@),
    ensures
        unique_keys(final(v)@),
        cookie_map(final(v)@) == cookie_map(old(v)@).insert(key_of(c), c),
{
    match find_key(v, &c) {
        Some(i) => {
            proof {
                lemma_map_update(v@, i as int, c);
            }
            v.set(i, c);
        },
        None => {
            proof {
                lemma_map_push(v@, c);
            }
            v.push(c);
        },
    }
}

/// Drops the cookie with the key of `c`, if any.
fn drop_cookie(v: &mut Vec<Cookie>, c: &Cookie)
    requires
        unique_keys(old(v)@),
    ensures
        unique_keys(final(v)@),
        cookie_map(final(v)@) == cookie_map(old(v)@).remove(key_of(*c)),
{
    match find_key(v, c) {
        Some(i) => {
            proof {
                lemma_map_remove(v@, i as int);
            }
            v.remove(i);
        },
        None => {
            assert(cookie_map(v@) =~= cookie_map(v@).remove(key_of(*c)));
        },
    }
}

impl CookieAuth {
    /// The login kept in an auth cache: refused when the cache holds no
    /// cookies; cookies with an empty name or value are left out.
    pub fn from_cache_data(cookies: Vec<Cookie>, source: String) -> (r: Result<
        CookieAuth,
        AuthError,
    >)
        ensures
            cookies.len() == 0 ==> r == Err::<CookieAuth, AuthError>(AuthError::NoCookies),
            cookies.len() > 0 ==> (r matches Ok(a) && a.source == source && a.cookies@
                == usable_cookies(cookies@)),
    {
        if cookies.len() == 0 {
            return Err(AuthError::NoCookies);
        }
        let mut kept: Vec<Cookie> = Vec::new();
        let mut i: usize = 0;
        while i < cookies.len()
            invariant
                i <= cookies.len(),
                kept@ == cookies@.take(i as int).filter(
                    |c: Cookie| c.name@.len() > 0 && c.value@.len() > 0,
                ),
            decreases cookies.len() - i,
        {
            let c = cookies[i].clone();
            proof {
                let prev = cookies@.take(i as int);
                assert(cookies@.take(i + 1) == prev.push(c));
                assert(prev.push(c).drop_last() == prev);
                reveal(Seq::filter);
            }
            if !c.name.as_str().is_empty() && !c.value.as_str().is_empty() {
                kept.push(c);
            }
            i += 1;
        }
        assert(cookies@.take(cookies.len() as int) == cookies@);
        Ok(CookieAuth { cookies: kept, source })
    }

    /// The login is valid at `now` with `margin` to spare.
    pub fn valid_at(&self, margin: i64, now: i64) -> (r: bool)
        ensures
            r == valid_at(self.cookies@, margin, now),
    {
        has_live_exec(&self.cookies, REQUIRED_COOKIE_A, margin, now) && has_live_exec(
            &self.cookies,
            REQUIRED_COOKIE_B,
            margin,
            now,
        )
    }

    /// The login is valid now, with `margin` microseconds to spare.
    pub fn valid(&self, margin: i64) -> (r: bool)
        ensures
            exists|now: i64| r == valid_at(self.cookies@, margin, now),
    {
        self.valid_at(margin, crate::foreign::now_micros())
    }

    /// Merges cookies received at `now`: the current cookies are taken by key
    /// (a later one replacing an earlier one with the same key), then each
    /// received GitCode cookie in turn removes its key if already expired,
    /// else replaces it. Cookies for other domains are ignored. The order of
    /// the resulting cookies is not specified.
    pub fn update_at(&mut self, cookies: Vec<Cookie>, now: i64)
        ensures
            unique_keys(final(self).cookies@),
            cookie_map(final(self).cookies@) == merged(loaded(old(self).cookies@), cookies@, now),
            final(self).source == old(self).source,
    {
        let mut v: Vec<Cookie> = Vec::new();
        let mut i: usize = 0;
        assert(cookie_map(v@) =~= loaded(self.cookies@.take(0)));
        while i < self.cookies.len()
            invariant
                i <= self.cookies.len(),
                unique_keys(v@),
                cookie_map(v@) == loaded(self.cookies@.take(i as int)),
            decreases self.cookies.len() - i,
        {
            let c = self.cookies[i].clone();
            assert(self.cookies@.take(i + 1).drop_last() == self.cookies@.take(i as int));
            put_cookie(&mut v, c);
            i += 1;
        }
        assert(self.cookies@.take(self.cookies.len() as int) == self.cookies@);
        let ghost base = loaded(self.cookies@);
        let mut j: usize = 0;
        while j < cookies.len()
            invariant
                j <= cookies.len(),
                unique_keys(v@),
                cookie_map(v@) == merged(base, cookies@.take(j as int), now),
            decreases cookies.len() - j,
        {
            let c = cookies[j].clone();
            assert(cookies@.take(j + 1).drop_last() == cookies@.take(j as int));
            if is_gitcode_domain(c.domain.as_str()) {
                if cookie_expired_at(&c, 0, now) {
                    drop_cookie(&mut v, &c);
                } else {
                    put_cookie(&mut v, c);
                }
            }
            j += 1;
        }
        assert(cookies@.take(cookies.len() as int) == cookies@);
        self.cookies = v;
    }

    /// Merges cookies received now (see `update_at`).
    pub fn update(&mut self, cookies: Vec<Cookie>)
        ensures
            unique_keys(final(self).cookies@),
            exists|now: i64|
                cookie_map(final(self).cookies@) == merged(loaded(old(self).cookies@), cookies@, now),
            final(self).source == old(self).source,
    {
        let now = crate::foreign::now_micros();
        self.update_at(cookies, now);
    }
}

// ---------------------------------------------------------------------------
// Cookies that go with a request
// ---------------------------------------------------------------------------

/// The length of a cookie's path in UTF-8 bytes: longer paths come first.
pub open spec fn path_bytes(c: Cookie) -> nat {
    encode_utf8(c.path@).len()
}

/// The cookies that go to `host` and `path` at `now`: unexpired, with a
/// matching domain, and whose path (without trailing `/`) starts `path`.
pub open spec fn sent_to(cookies: Seq<Cookie>, host: Seq<char>, path: Seq<char>, now: i64) -> Seq<
    Cookie,
> {
    cookies.filter(
        |c: Cookie|
            !expired_at(c, 0, now) && domain_match(c.domain@, host) && starts_with(
                path,
                trim_end_char(c.path@, '/'),
            ),
    )
}

/// The cookies of `s` whose path has `len` bytes, in order.
pub open spec fn with_path_len(s: Seq<Cookie>, len: nat) -> Seq<Cookie> {
    s.filter(|c: Cookie| path_bytes(c) == len)
}

/// `out` is `s` stably sorted by path length, longest first: the path
/// lengths never increase, and the cookies of each length keep their order.
pub open spec fn longest_path_first(out: Seq<Cookie>, s: Seq<Cookie>) -> bool {
    &&& forall|i: int, j: int|
        0 <= i < j < out.len() ==> path_bytes(#[trigger] out[i]) >= path_bytes(#[trigger] out[j])
    &&& forall|len: nat| #[trigger] with_path_len(out, len) == with_path_len(s, len)
}

pub open spec fn pair_text(c: Cookie) -> Seq<char> {
    c.name@ + "="@ + c.value@
}

/// The `Cookie` header value: `name=value` pairs separated by `; `.
pub open spec fn header_text(out: Seq<Cookie>) -> Seq<char> {
    join(out.map_values(|c: Cookie| pair_text(c)), "; "@)
}

proof fn lemma_filter_push(s: Seq<Cookie>, x: Cookie, len: nat)
    ensures
        with_path_len(s.push(x), len) == if path_bytes(x) == len {
            with_path_len(s, len).push(x)
        } else {
            with_path_len(s, len)
        },
{
    reveal(Seq::filter);
    assert(s.push(x).drop_last() == s);
}

proof fn lemma_filter_insert(out: Seq<Cookie>, p: int, x: Cookie, len: nat)
    requires
        0 <= p <= out.len(),
        forall|j: int| p <= j < out.len() ==> path_bytes(#[trigger] out[j]) < path_bytes(x),
    ensures
        with_path_len(out.insert(p, x), len) == if path_bytes(x) == len {
            with_path_len(out, len).push(x)
        } else {
            with_path_len(out, len)
        },
{
    let a = out.take(p);
    let b = out.skip(p);
    assert(out == a + b);
    assert(out.insert(p, x) == a.push(x) + b);
    broadcast use vstd::seq::Seq::filter_distributes_over_add;

    lemma_filter_push(a, x, len);
    assert(with_path_len(out, len) == with_path_len(a, len) + with_path_len(b, len));
    assert(with_path_len(a.push(x) + b, len) == with_path_len(a.push(x), len) + with_path_len(
        b,
        len,
    ));
    if path_bytes(x) == len {
        assert forall|j: int| 0 <= j < b.len() implies path_bytes(#[trigger] b[j]) != len by {
            assert(b[j] == out[p + j]);
        }
        lemma_filter_none(b, len);
    }
}

proof fn lemma_filter_none(s: Seq<Cookie>, len: nat)
    requires
        forall|j: int| 0 <= j < s.len() ==> path_bytes(#[trigger] s[j]) != len,
    ensures
        with_path_len(s, len) == Seq::<Cookie>::empty(),
    decreases s.len(),
{
    reveal(Seq::filter);
    if s.len() > 0 {
        lemma_filter_none(s.drop_last(), len);
        assert(path_bytes(s[s.len() - 1]) != len);
    }
}

/// The cookies an auth cache keeps: those with a name and a value.
pub open spec fn usable_cookies(cs: Seq<Cookie>) -> Seq<Cookie> {
    cs.filter(|c: Cookie| c.name@.len() > 0 && c.value@.len() > 0)
}

/// A login loaded from an auth cache, saved and loaded again, comes back
/// with the same cookies in the same order: loading keeps exactly the usable
/// cookies, and those are all usable already.
pub proof fn lemma_reload_keeps_cookies(cs: Seq<Cookie>)
    ensures
        usable_cookies(usable_cookies(cs)) == usable_cookies(cs),
    decreases cs.len(),
{
    reveal(Seq::filter);
    if cs.len() > 0 {
        lemma_reload_keeps_cookies(cs.drop_last());
        let f = |c: Cookie| c.name@.len() > 0 && c.value@.len() > 0;
        let u = cs.drop_last().filter(f);
        if f(cs.last()) {
            assert(cs.filter(f) == u.push(cs.last()));
            assert(u.push(cs.last()).drop_last() =~= u);
            assert(u.push(cs.last()).filter(f) == u.filter(f).push(cs.last()));
        } else {
            assert(cs.filter(f) == u);
        }
    }
}

/// The first position in `out` whose cookie has a path shorter than `k`
/// bytes, or the length of `out` when there is none.
pub open spec fn first_shorter(out: Seq<Cookie>, k: nat) -> nat
    decreases out.len(),
{
    if out.len() == 0 {
        0
    } else if path_bytes(out[0]) < k {
        0
    } else {
        1 + first_shorter(out.drop_first(), k)
    }
}

/// `s` sorted stably by path length, longest first, as insertion sort does:
/// each cookie in turn goes after every cookie whose path is at least as
/// long, so cookies with paths of one length keep their order in `s`.
pub open spec fn longest_first(s: Seq<Cookie>) -> Seq<Cookie>
    decreases s.len(),
{
    if s.len() == 0 {
        s
    } else {
        let o = longest_first(s.drop_last());
        o.insert(first_shorter(o, path_bytes(s.last())) as int, s.last())
    }
}

proof fn lemma_first_shorter(out: Seq<Cookie>, k: nat, p: int)
    requires
        0 <= p <= out.len(),
        forall|j: int| 0 <= j < p ==> path_bytes(#[trigger] out[j]) >= k,
        p == out.len() || path_bytes(out[p]) < k,
    ensures
        first_shorter(out, k) == p,
    decreases p,
{
    if p > 0 {
        assert(path_bytes(out[0]) >= k);
        let d = out.drop_first();
        assert forall|j: int| 0 <= j < p - 1 implies path_bytes(#[trigger] d[j]) >= k by {
            assert(d[j] == out[j + 1]);
        }
        if p < out.len() {
            assert(d[p - 1] == out[p]);
        }
        lemma_first_shorter(d, k, p - 1);
    }
}

/// Sorts `sel` stably by path length, longest first.
fn sort_longest_path_first(sel: &Vec<Cookie>) -> (r: Vec<Cookie>)
    ensures
        r@ == longest_first(sel@),
        longest_path_first(r@, sel@),
{
    let mut out: Vec<Cookie> = Vec::new();
    let mut keys: Vec<usize> = Vec::new();
    let mut i: usize = 0;
    assert(sel@.take(0) =~= out@);
    while i < sel.len()
        invariant
            i <= sel.len(),
            keys.len() == out.len(),
            forall|j: int| 0 <= j < out.len() ==> keys@[j] == path_bytes(#[trigger] out@[j]),
            longest_path_first(out@, sel@.take(i as int)),
            out@ == longest_first(sel@.take(i as int)),
        decreases sel.len() - i,
    {
        let x = sel[i].clone();
        let kx = byte_len(x.path.as_str());
        let mut p: usize = 0;
        while p < out.len() && keys[p] >= kx
            invariant
                p <= out.len(),
                keys.len() == out.len(),
                forall|j: int| 0 <= j < out.len() ==> keys@[j] == path_bytes(#[trigger] out@[j]),
                forall|j: int| 0 <= j < p ==> path_bytes(#[trigger] out@[j]) >= kx,
            decreases out.len() - p,
        {
            p += 1;
        }
        let ghost before = out@;
        proof {
            lemma_first_shorter(before, path_bytes(x), p as int);
            assert(sel@.take(i + 1).drop_last() =~= sel@.take(i as int));
            assert(sel@.take(i + 1).last() == x);
            assert forall|j: int| p <= j < before.len() implies path_bytes(#[trigger] before[j])
                < path_bytes(x) by {
                assert(path_bytes(before[p as int]) < kx);
                if j > p {
                    assert(path_bytes(before[p as int]) >= path_bytes(before[j]));
                }
            }
            assert(sel@.take(i + 1) == sel@.take(i as int).push(x));
            assert forall|len: nat| #[trigger] with_path_len(before.insert(p as int, x), len)
                == with_path_len(sel@.take(i + 1), len) by {
                lemma_filter_insert(before, p as int, x, len);
                lemma_filter_push(sel@.take(i as int), x, len);
                assert(with_path_len(before, len) == with_path_len(sel@.take(i as int), len));
            }
        }
        out.insert(p, x);
        keys.insert(p, kx);
        proof {
            assert(out@ == before.insert(p as int, x));
            assert forall|a: int, b: int| 0 <= a < b < out@.len() implies path_bytes(
                #[trigger] out@[a],
            ) >= path_bytes(#[trigger] out@[b]) by {
                if b < p {
                } else if b == p {
                    assert(out@[a] == before[a]);
                } else if a < p {
                    assert(out@[b] == before[b - 1]);
                    assert(out@[a] == before[a]);
                } else if a == p {
                    assert(out@[b] == before[b - 1]);
                } else {
                    assert(out@[b] == before[b - 1]);
                    assert(out@[a] == before[a - 1]);
                }
            }
            assert forall|j: int| 0 <= j < out.len() implies keys@[j] == path_bytes(
                #[trigger] out@[j],
            ) by {
                if j < p {
                    assert(out@[j] == before[j]);
                } else if j > p {
                    assert(out@[j] == before[j - 1]);
                }
            }
        }
        i += 1;
    }
    assert(sel@.take(sel.len() as int) == sel@);
    out
}

/// The `Cookie` header for a request to a URL with host `host` and path
/// `path`, at `now`: the cookies sent there, stably sorted longest path
/// first (cookies whose paths are equally long keep their stored order).
pub fn cookie_header_for(cookies: &Vec<Cookie>, host: &str, path: &str, now: i64) -> (r: String)
    ensures
        r@ == header_text(longest_first(sent_to(cookies@, host@, path@, now))),
        longest_path_first(
            longest_first(sent_to(cookies@, host@, path@, now)),
            sent_to(cookies@, host@, path@, now),
        ),
{
    let p = chars_of(path);
    let mut sel: Vec<Cookie> = Vec::new();
    let mut i: usize = 0;
    while i < cookies.len()
        invariant
            i <= cookies.len(),
            p@ == path@,
            sel@ == sent_to(cookies@.take(i as int), host@, path@, now),
        decreases cookies.len() - i,
    {
        let c = &cookies[i];
        proof {
            let prev = cookies@.take(i as int);
            assert(cookies@.take(i + 1) == prev.push(*c));
            assert(prev.push(*c).drop_last() == prev);
            reveal(Seq::filter);
        }
        let prefix = trim_end_char_chars(&chars_of(c.path.as_str()), '/');
        if !cookie_expired_at(c, 0, now) && domain_matches(c.domain.as_str(), host) && has_prefix(
            &p,
            &prefix,
        ) {
            sel.push(c.clone());
        }
        i += 1;
    }
    assert(cookies@.take(cookies.len() as int) == cookies@);
    let out = sort_longest_path_first(&sel);
    let mut parts: Vec<Vec<char>> = Vec::new();
    let mut j: usize = 0;
    while j < out.len()
        invariant
            j <= out.len(),
            parts.len() == j,
            vec_views(parts@) == out@.map_values(|c: Cookie| pair_text(c)).take(j as int),
        decreases out.len() - j,
    {
        let mut t = chars_of(out[j].name.as_str());
        append_str(&mut t, "=");
        append_str(&mut t, out[j].value.as_str());
        let ghost before = parts@;
        parts.push(t);
        proof {
            assert forall|k: int| 0 <= k < j implies parts@[k] == before[k] by {}
        }
        j += 1;
        assert(vec_views(parts@) =~= out@.map_values(|c: Cookie| pair_text(c)).take(j as int));
    }
    assert(out@.map_values(|c: Cookie| pair_text(c)).take(out.len() as int) == out@.map_values(
        |c: Cookie| pair_text(c),
    ));
    let r = string_of(&join_chars(&parts, &chars_of("; ")));
    r
}

/// The value of the first `_xsrf` cookie whose domain matches `host`.
pub open spec fn xsrf_for(cookies: Seq<Cookie>, host: Seq<char>) -> Seq<char> {
    if exists|i: int|
        0 <= i < cookies.len() && cookies[i].name@ == "_xsrf"@ && domain_match(
            cookies[i].domain@,
            host,
        ) {
        let i = choose|i: int|
            0 <= i < cookies.len() && cookies[i].name@ == "_xsrf"@ && domain_match(
                cookies[i].domain@,
                host,
            ) && forall|j: int|
                0 <= j < i ==> !(cookies[j].name@ == "_xsrf"@ && domain_match(
                    cookies[j].domain@,
                    host,
                ));
        cookies[i].value@
    } else {
        Seq::empty()
    }
}

pub fn xsrf_token_for(cookies: &Vec<Cookie>, host: &str) -> (r: String)
    ensures
        r@ == xsrf_for(cookies@, host@),
{
    let name = chars_of("_xsrf");
    let mut i: usize = 0;
    while i < cookies.len()
        invariant
            i <= cookies.len(),
            name@ == "_xsrf"@,
            forall|j: int|
                0 <= j < i ==> !(#[trigger] cookies@[j].name@ == "_xsrf"@ && domain_match(
                    cookies@[j].domain@,
                    host@,
                )),
        decreases cookies.len() - i,
    {
        if chars_eq(&chars_of(cookies[i].name.as_str()), &name) && domain_matches(
            cookies[i].domain.as_str(),
            host,
        ) {
            proof {
                let k = choose|k: int|
                    0 <= k < cookies@.len() && cookies@[k].name@ == "_xsrf"@ && domain_match(
                        cookies@[k].domain@,
                        host@,
                    ) && forall|j: int|
                        0 <= j < k ==> !(cookies@[j].name@ == "_xsrf"@ && domain_match(
                            cookies@[j].domain@,
                            host@,
                        ));
                if k < i {
                    assert(cookies@[k].name@ == "_xsrf"@);
                } else if k > i {
                    assert(cookies@[i as int].name@ == "_xsrf"@);
                }
            }
            return cookies[i].value.clone();
        }
        i += 1;
    }
    String::new()
}

/// The `Cookie` header for `url` at `now`: empty when `url` does not parse;
/// otherwise the cookies sent to its host (the empty host when it has none)
/// and path, stably sorted longest path first.
pub open spec fn header_for_url(cookies: Seq<Cookie>, url: Seq<char>, now: i64, r: Seq<char>) -> bool {
    match url_parse(url) {
        None => r.len() == 0,
        Some(u) => r == header_text(
            longest_first(
                sent_to(
                    cookies,
                    match u.host {
                        Some(h) => h,
                        None => Seq::empty(),
                    },
                    u.path,
                    now,
                ),
            ),
        ),
    }
}

impl CookieAuth {
    /// The `Cookie` header for a request to `url` at `now`; empty when `url`
    /// does not parse. A URL without a host is matched with the empty host.
    pub fn cookie_header_at(&self, url: &str, now: i64) -> (r: String)
        ensures
            header_for_url(self.cookies@, url@, now, r@),
    {
        match parse_url(url) {
            None => String::new(),
            Some(u) => {
                let host = match &u.host {
                    Some(h) => h.clone(),
                    None => String::new(),
                };
                cookie_header_for(&self.cookies, host.as_str(), u.path.as_str(), now)
            },
        }
    }

    /// The `Cookie` header for a request to `url` now.
    pub fn cookie_header(&self, url: &str) -> (r: String)
        ensures
            exists|now: i64| #[trigger] header_for_url(self.cookies@, url@, now, r@),
    {
        self.cookie_header_at(url, crate::foreign::now_micros())
    }

    /// The XSRF token for a request to `url`: the value of the first `_xsrf`
    /// cookie for its host; empty when `url` does not parse or none matches.
    pub fn xsrf_token(&self, url: &str) -> (r: String)
        ensures
            match url_parse(url@) {
                None => r@.len() == 0,
                Some(u) => r@ == xsrf_for(
                    self.cookies@,
                    match u.host {
                        Some(h) => h,
                        None => Seq::empty(),
                    },
                ),
            },
    {
        match parse_url(url) {
            None => String::new(),
            Some(u) => {
                let host = match &u.host {
                    Some(h) => h.clone(),
                    None => String::new(),
                };
                xsrf_token_for(&self.cookies, host.as_str())
            },
        }
    }

    /// The names of the GitCode cookies, sorted, each once.
    pub fn redacted_names(&self) -> (r: Vec<String>)
        ensures
            strictly_sorted(crate::shell::views_of(r@)),
            crate::shell::views_of(r@).to_set() == Set::new(
                |n: Seq<char>|
                    exists|i: int|
                        0 <= i < self.cookies@.len() && self.cookies@[i].name@ == n
                            && gitcode_domain(self.cookies@[i].domain@),
            ),
    {
        let ghost cs = self.cookies@;
        let mut acc: Vec<Vec<char>> = Vec::new();
        let mut i: usize = 0;
        assert(vec_views(acc@).to_set() =~= Set::<Seq<char>>::empty());
        while i < self.cookies.len()
            invariant
                i <= self.cookies.len(),
                cs == self.cookies@,
                strictly_sorted(vec_views(acc@)),
                vec_views(acc@).to_set() == Set::new(
                    |n: Seq<char>|
                        exists|k: int|
                            0 <= k < i && cs[k].name@ == n && gitcode_domain(cs[k].domain@),
                ),
            decreases self.cookies.len() - i,
        {
            let c = &self.cookies[i];
            if is_gitcode_domain(c.domain.as_str()) {
                insert_sorted_unique(&mut acc, chars_of(c.name.as_str()));
            }
            proof {
                assert(vec_views(acc@).to_set() =~= Set::new(
                    |n: Seq<char>|
                        exists|k: int|
                            0 <= k < i + 1 && cs[k].name@ == n && gitcode_domain(cs[k].domain@),
                )) by {
                    assert forall|n: Seq<char>|
                        (exists|k: int|
                            0 <= k < i + 1 && cs[k].name@ == n && gitcode_domain(
                                cs[k].domain@,
                            )) implies vec_views(acc@).to_set().contains(n) by {
                        let k = choose|k: int|
                            0 <= k < i + 1 && cs[k].name@ == n && gitcode_domain(cs[k].domain@);
                        if k < i {
                            assert(exists|k2: int|
                                0 <= k2 < i && cs[k2].name@ == n && gitcode_domain(
                                    cs[k2].domain@,
                                ));
                        }
                    }
                }
            }
            i += 1;
        }
        let mut r: Vec<String> = Vec::new();
        let mut j: usize = 0;
        while j < acc.len()
            invariant
                j <= acc.len(),
                r.len() == j,
                crate::shell::views_of(r@) == vec_views(acc@).take(j as int),
            decreases acc.len() - j,
        {
            let ghost before = r@;
            r.push(string_of(&acc[j]));
            proof {
                assert forall|k: int| 0 <= k < j implies r@[k] == before[k] by {}
            }
            j += 1;
            assert(crate::shell::views_of(r@) =~= vec_views(acc@).take(j as int));
        }
        assert(vec_views(acc@).take(acc.len() as int) == vec_views(acc@));
        r
    }
}

// ---------------------------------------------------------------------------
// Set-Cookie headers
// ---------------------------------------------------------------------------

/// The name of a cookie attribute: before the first `=`, lower-cased.
pub open spec fn attr_key(a: Seq<char>) -> Seq<char> {
    ascii_lower(
        match split_once(a, '=') {
            Some((k, _)) => k,
            None => a,
        },
    )
}

/// The value of a cookie attribute: after the first `=`, else empty.
pub open spec fn attr_value(a: Seq<char>) -> Seq<char> {
    match split_once(a, '=') {
        Some((_, v)) => v,
        None => Seq::empty(),
    }
}

/// The value of the last attribute named `key`.
pub open spec fn last_value(attrs: Seq<Seq<char>>, key: Seq<char>) -> Option<Seq<char>>
    decreases attrs.len(),
{
    if attrs.len() == 0 {
        None
    } else if attr_key(attrs.last()) == key {
        Some(attr_value(attrs.last()))
    } else {
        last_value(attrs.drop_last(), key)
    }
}

proof fn lemma_last_value_push(s: Seq<Seq<char>>, a: Seq<char>, key: Seq<char>)
    ensures
        last_value(s.push(a), key) == if attr_key(a) == key {
            Some(attr_value(a))
        } else {
            last_value(s, key)
        },
{
    assert(s.push(a).drop_last() == s);
}

/// `x` held in the range of `i64`.
pub open spec fn clamp_i64(x: int) -> i64 {
    if x < i64::MIN {
        i64::MIN
    } else if x > i64::MAX {
        i64::MAX
    } else {
        x as i64
    }
}

/// The expiry that one attribute sets: `Max-Age` seconds from `now` when
/// it parses as an `i64`, or the date of `Expires` when it parses.
pub open spec fn expiry_of(a: Seq<char>, now: i64) -> Option<i64> {
    if attr_key(a) == "max-age"@ {
        match parse_signed(attr_value(a), i64::MIN as int, i64::MAX as int) {
            Some(n) => Some(clamp_i64(now + n * 1_000_000)),
            None => None,
        }
    } else if attr_key(a) == "expires"@ {
        http_date_micros(attr_value(a))
    } else {
        None
    }
}

/// The expiry set by the last attribute that sets one.
pub open spec fn last_expiry(attrs: Seq<Seq<char>>, now: i64) -> Option<i64>
    decreases attrs.len(),
{
    if attrs.len() == 0 {
        None
    } else {
        match expiry_of(attrs.last(), now) {
            Some(e) => Some(e),
            None => last_expiry(attrs.drop_last(), now),
        }
    }
}

/// The pieces of a `Set-Cookie` value: split at `;`, each trimmed.
pub open spec fn set_cookie_pieces(raw: Seq<char>) -> Seq<Seq<char>> {
    split_char(raw, ';').map_values(|p: Seq<char>| trim(p))
}

/// The cookie that a `Set-Cookie` header value sets for a response from
/// `url` at `now`: `None` when `url` has no host or the first piece is not
/// `name=value` with both parts non-empty. The attributes that follow set
/// domain (default: the URL's host), path (default and empty value: `/`),
/// `Secure`, `HttpOnly`, `SameSite` and the expiry (default: none); where
/// one appears more than once, the last one counts.
pub open spec fn set_cookie(url: Seq<char>, raw: Seq<char>, now: i64) -> Option<CookieModel> {
    let pieces = set_cookie_pieces(raw);
    let attrs = pieces.skip(1);
    match url_parse(url) {
        Some(u) => match u.host {
            Some(host) => match split_once(pieces[0], '=') {
                Some((name, value)) => if name.len() == 0 || value.len() == 0 {
                    None
                } else {
                    Some(
                        CookieModel {
                            name,
                            value,
                            domain: match last_value(attrs, "domain"@) {
                                Some(d) => d,
                                None => host,
                            },
                            path: match last_value(attrs, "path"@) {
                                Some(p) => if p.len() == 0 {
                                    "/"@
                                } else {
                                    p
                                },
                                None => "/"@,
                            },
                            expires: match last_expiry(attrs, now) {
                                Some(e) => Some(e),
                                None => Some(-1_000_000i64),
                            },
                            secure: last_value(attrs, "secure"@) is Some,
                            http_only: last_value(attrs, "httponly"@) is Some,
                            same_site: last_value(attrs, "samesite"@),
                        },
                    )
                },
                None => None,
            },
            None => None,
        },
        None => None,
    }
}

fn attr_key_value(a: &Vec<char>) -> (r: (Vec<char>, Vec<char>))
    ensures
        r.0@ == attr_key(a@),
        r.1@ == attr_value(a@),
{
    match split_once_chars(a, '=') {
        Some((k, v)) => (ascii_lower_chars(&k), v),
        None => (ascii_lower_chars(a), Vec::new()),
    }
}

fn expiry_of_exec(key: &Vec<char>, value: &Vec<char>, a: &Vec<char>, now: i64) -> (r: Option<i64>)
    requires
        key@ == attr_key(a@),
        value@ == attr_value(a@),
    ensures
        r == expiry_of(a@, now),
{
    if chars_eq(key, &chars_of("max-age")) {
        match parse_signed_chars(value, i64::MIN, i64::MAX) {
            Some(n) => {
                let x: i128 = now as i128 + (n as i128) * 1_000_000;
                let e: i64 = if x < i64::MIN as i128 {
                    i64::MIN
                } else if x > i64::MAX as i128 {
                    i64::MAX
                } else {
                    x as i64
                };
                Some(e)
            },
            None => None,
        }
    } else if chars_eq(key, &chars_of("expires")) {
        parse_http_date(string_of(value).as_str())
    } else {
        None
    }
}

/// Parses a `Set-Cookie` header value received from `url` at `now`.
pub fn parse_set_cookie_at(url: &str, raw: &str, now: i64) -> (r: Option<Cookie>)
    ensures
        match set_cookie(url@, raw@, now) {
            Some(m) => r matches Some(c) && c@ == m,
            None => r is None,
        },
{
    let host = match parse_url(url) {
        Some(u) => match u.host {
            Some(h) => h,
            None => {
                return None;
            },
        },
        None => {
            return None;
        },
    };
    let split = split_char_chars(&chars_of(raw), ';');
    proof {
        lemma_split_char_nonempty(raw@, ';');
    }
    let ghost pieces = set_cookie_pieces(raw@);
    let first = trim_chars(&split[0]);
    let (name, value) = match split_once_chars(&first, '=') {
        Some(nv) => nv,
        None => {
            return None;
        },
    };
    if name.len() == 0 || value.len() == 0 {
        return None;
    }
    let ghost attrs = pieces.skip(1);
    let mut domain: Option<Vec<char>> = None;
    let mut path: Option<Vec<char>> = None;
    let mut secure = false;
    let mut http_only = false;
    let mut same_site: Option<Vec<char>> = None;
    let mut expires: Option<i64> = None;
    let mut k: usize = 1;
    while k < split.len()
        invariant
            1 <= k <= split.len(),
            pieces == set_cookie_pieces(raw@),
            pieces.len() == split.len(),
            vec_views(split@) == split_char(raw@, ';'),
            attrs == pieces.skip(1),
            domain matches Some(d) ==> last_value(attrs.take(k - 1), "domain"@) == Some(d@),
            domain is None ==> last_value(attrs.take(k - 1), "domain"@) is None,
            path matches Some(d) ==> last_value(attrs.take(k - 1), "path"@) == Some(d@),
            path is None ==> last_value(attrs.take(k - 1), "path"@) is None,
            same_site matches Some(d) ==> last_value(attrs.take(k - 1), "samesite"@) == Some(d@),
            same_site is None ==> last_value(attrs.take(k - 1), "samesite"@) is None,
            secure == last_value(attrs.take(k - 1), "secure"@) is Some,
            http_only == last_value(attrs.take(k - 1), "httponly"@) is Some,
            expires == last_expiry(attrs.take(k - 1), now),
        decreases split.len() - k,
    {
        let a = trim_chars(&split[k]);
        proof {
            assert(a@ == pieces[k as int]);
            assert(attrs.take(k as int).drop_last() == attrs.take(k - 1));
            assert(attrs.take(k as int).last() == a@);
        }
        let (key, val) = attr_key_value(&a);
        proof {
            reveal_strlit("domain");
            reveal_strlit("path");
            reveal_strlit("secure");
            reveal_strlit("httponly");
            reveal_strlit("samesite");
        }
        proof {
            let prev = attrs.take(k - 1);
            assert(attrs.take(k as int) == prev.push(a@));
            lemma_last_value_push(prev, a@, "domain"@);
            lemma_last_value_push(prev, a@, "path"@);
            lemma_last_value_push(prev, a@, "secure"@);
            lemma_last_value_push(prev, a@, "httponly"@);
            lemma_last_value_push(prev, a@, "samesite"@);
        }
        if chars_eq(&key, &chars_of("domain")) {
            domain = Some(val.clone());
        }
        if chars_eq(&key, &chars_of("path")) {
            path = Some(val.clone());
        }
        if chars_eq(&key, &chars_of("secure")) {
            secure = true;
        }
        if chars_eq(&key, &chars_of("httponly")) {
            http_only = true;
        }
        if chars_eq(&key, &chars_of("samesite")) {
            same_site = Some(val.clone());
        }
        match expiry_of_exec(&key, &val, &a, now) {
            Some(e) => {
                expires = Some(e);
            },
            None => {},
        }
        k += 1;
    }
    assert(attrs.take(k - 1) == attrs);
    let path_final = match path {
        Some(p) => if p.len() == 0 {
            chars_of("/")
        } else {
            p
        },
        None => chars_of("/"),
    };
    Some(
        Cookie {
            name: string_of(&name),
            value: string_of(&value),
            domain: match domain {
                Some(d) => string_of(&d),
                None => host,
            },
            path: string_of(&path_final),
            expires: match expires {
                Some(e) => Some(e),
                None => Some(-1_000_000),
            },
            secure,
            http_only,
            same_site: match same_site {
                Some(v) => Some(string_of(&v)),
                None => None,
            },
        },
    )
}

pub open spec fn models_of(v: Seq<Cookie>) -> Seq<CookieModel> {
    v.map_values(|c: Cookie| c@)
}

/// The cookies that `Set-Cookie` header values received from `url` at
/// `now` set, in order; values that do not parse are skipped.
pub fn parse_set_cookie_headers_at(url: &str, raws: &Vec<String>, now: i64) -> (r: Vec<Cookie>)
    ensures
        models_of(r@) == crate::shell::views_of(raws@).filter_map(
            |raw: Seq<char>| set_cookie(url@, raw, now),
        ),
{
    let ghost raws_v = crate::shell::views_of(raws@);
    let mut out: Vec<Cookie> = Vec::new();
    let mut i: usize = 0;
    while i < raws.len()
        invariant
            i <= raws.len(),
            raws_v == crate::shell::views_of(raws@),
            models_of(out@) == raws_v.take(i as int).filter_map(
                |raw: Seq<char>| set_cookie(url@, raw, now),
            ),
        decreases raws.len() - i,
    {
        let parsed = parse_set_cookie_at(url, raws[i].as_str(), now);
        proof {
            let prev = raws_v.take(i as int);
            assert(raws_v.take(i + 1) == prev.push(raws@[i as int]@));
            assert(prev.push(raws@[i as int]@).drop_last() == prev);
            reveal(Seq::filter_map);
        }
        match parsed {
            Some(c) => {
                let ghost before = out@;
                out.push(c);
                assert(models_of(out@) =~= models_of(before).push(c@));
            },
            None => {},
        }
        i += 1;
    }
    assert(raws_v.take(raws.len() as int) == raws_v);
    out
}

// ---------------------------------------------------------------------------
// Cookies read from Chrome
// ---------------------------------------------------------------------------

/// The fields of one cookie as Chrome DevTools reports it; each is `None`
/// where the field is missing or of another JSON type. `expires` is in
/// microseconds since the Unix epoch.
pub struct CdpCookie {
    pub name: Option<String>,
    pub value: Option<String>,
    pub domain: Option<String>,
    pub path: Option<String>,
    pub expires: Option<i64>,
    pub secure: Option<bool>,
    pub http_only: Option<bool>,
    pub same_site: Option<String>,
}

/// The cookie that a DevTools cookie record gives: `None` without a
/// non-empty name and value; a missing domain is empty, a missing path is
/// `/`, `secure` defaults to true and `httpOnly` to false.
pub open spec fn cdp_cookie_model(c: CdpCookie) -> Option<CookieModel> {
    match (c.name, c.value) {
        (Some(n), Some(v)) => if n@.len() == 0 || v@.len() == 0 {
            None
        } else {
            Some(
                CookieModel {
                    name: n@,
                    value: v@,
                    domain: match c.domain {
                        Some(d) => d@,
                        None => Seq::empty(),
                    },
                    path: match c.path {
                        Some(p) => p@,
                        None => "/"@,
                    },
                    expires: c.expires,
                    secure: match c.secure {
                        Some(b) => b,
                        None => true,
                    },
                    http_only: match c.http_only {
                        Some(b) => b,
                        None => false,
                    },
                    same_site: opt_view(c.same_site),
                },
            )
        },
        _ => None,
    }
}

fn clone_opt(o: &Option<String>) -> (r: Option<String>)
    ensures
        r == *o,
{
    match o {
        Some(s) => Some(s.clone()),
        None => None,
    }
}

pub fn normalize_cdp_cookie(c: &CdpCookie) -> (r: Option<Cookie>)
    ensures
        match cdp_cookie_model(*c) {
            Some(m) => r matches Some(x) && x@ == m,
            None => r is None,
        },
{
    let (name, value) = match (&c.name, &c.value) {
        (Some(n), Some(v)) => (n.clone(), v.clone()),
        _ => {
            return None;
        },
    };
    if name.as_str().is_empty() || value.as_str().is_empty() {
        return None;
    }
    Some(
        Cookie {
            name,
            value,
            domain: match &c.domain {
                Some(d) => d.clone(),
                None => String::new(),
            },
            path: match &c.path {
                Some(p) => p.clone(),
                None => "/".to_owned(),
            },
            expires: c.expires,
            secure: match c.secure {
                Some(b) => b,
                None => true,
            },
            http_only: match c.http_only {
                Some(b) => b,
                None => false,
            },
            same_site: clone_opt(&c.same_site),
        },
    )
}

pub open spec fn cdp_models(s: Seq<CdpCookie>) -> Seq<CookieModel> {
    s.filter_map(|c: CdpCookie| cdp_cookie_model(c))
}

pub open spec fn gitcode_models(s: Seq<CookieModel>) -> Seq<CookieModel> {
    s.filter(|m: CookieModel| gitcode_domain(m.domain))
}

proof fn lemma_cdp_models_push(s: Seq<CdpCookie>, c: CdpCookie)
    ensures
        cdp_models(s.push(c)) == match cdp_cookie_model(c) {
            Some(m) => cdp_models(s).push(m),
            None => cdp_models(s),
        },
{
    reveal(Seq::filter_map);
    assert(s.push(c).drop_last() == s);
}

proof fn lemma_gitcode_models_push(s: Seq<CookieModel>, m: CookieModel)
    ensures
        gitcode_models(s.push(m)) == if gitcode_domain(m.domain) {
            gitcode_models(s).push(m)
        } else {
            gitcode_models(s)
        },
{
    reveal(Seq::filter);
    assert(s.push(m).drop_last() == s);
}

/// The login that a DevTools cookie list gives at `now`: the GitCode
/// cookies among the records that normalize, tagged `chrome-cdp`; refused
/// when it is not valid at `now`.
pub fn cookies_from_cdp_at(records: Vec<CdpCookie>, now: i64) -> (r: Result<CookieAuth, AuthError>)
    ensures
        match r {
            Ok(a) => a.source@ == "chrome-cdp"@ && valid_at(a.cookies@, 0, now)
                && models_of(a.cookies@) == gitcode_models(cdp_models(records@)),
            Err(e) => e == AuthError::NotLoggedIn && !(exists|cs: Seq<Cookie>|
                models_of(cs) == gitcode_models(cdp_models(records@)) && valid_at(cs, 0, now)),
        },
{
    let ghost wanted = gitcode_models(cdp_models(records@));
    let mut kept: Vec<Cookie> = Vec::new();
    let ghost all = records@;
    let mut i: usize = 0;
    let n = records.len();
    while i < n
        invariant
            i <= n,
            n == all.len(),
            all == records@,
            models_of(kept@) == gitcode_models(cdp_models(all.take(i as int))),
        decreases n - i,
    {
        let rec = &records[i];
        proof {
            let prev = all.take(i as int);
            assert(all.take(i + 1) == prev.push(*rec));
            lemma_cdp_models_push(prev, *rec);
            match cdp_cookie_model(*rec) {
                Some(m) => lemma_gitcode_models_push(cdp_models(prev), m),
                None => {},
            }
        }
        match normalize_cdp_cookie(rec) {
            Some(c) => {
                if is_gitcode_domain(c.domain.as_str()) {
                    let ghost before = kept@;
                    kept.push(c);
                    assert(models_of(kept@) =~= models_of(before).push(c@));
                }
            },
            None => {},
        }
        i += 1;
    }
    assert(all.take(n as int) == all);
    let auth = CookieAuth { cookies: kept, source: "chrome-cdp".to_owned() };
    if !auth.valid_at(0, now) {
        proof {
            assert forall|cs: Seq<Cookie>| models_of(cs) == wanted implies !valid_at(cs, 0, now) by {
                lemma_valid_by_models(cs, auth.cookies@, 0, now);
            }
        }
        return Err(AuthError::NotLoggedIn);
    }
    Ok(auth)
}

/// Validity depends only on the cookies' content.
proof fn lemma_valid_by_models(a: Seq<Cookie>, b: Seq<Cookie>, margin: i64, now: i64)
    requires
        models_of(a) == models_of(b),
    ensures
        valid_at(a, margin, now) == valid_at(b, margin, now),
{
    assert(a.len() == b.len()) by {
        assert(models_of(a).len() == a.len());
    }
    assert forall|i: int| 0 <= i < a.len() implies a[i].name@ == b[i].name@ && a[i].domain@
        == b[i].domain@ && a[i].expires == b[i].expires by {
        assert(models_of(a)[i] == models_of(b)[i]);
        let ma = a[i]@;
        let mb = b[i]@;
        assert(models_of(a)[i] == ma);
        assert(models_of(b)[i] == mb);
        assert(ma.name == a[i].name@);
        assert(mb.name == b[i].name@);
    }
    if has_live(a, REQUIRED_COOKIE_A@, margin, now) {
        let i = choose|i: int|
            0 <= i < a.len() && #[trigger] a[i].name@ == REQUIRED_COOKIE_A@ && gitcode_domain(
                a[i].domain@,
            ) && !expired_at(a[i], margin, now);
        assert(b[i].name@ == REQUIRED_COOKIE_A@);
    }
    if has_live(b, REQUIRED_COOKIE_A@, margin, now) {
        let i = choose|i: int|
            0 <= i < b.len() && #[trigger] b[i].name@ == REQUIRED_COOKIE_A@ && gitcode_domain(
                b[i].domain@,
            ) && !expired_at(b[i], margin, now);
        assert(a[i].name@ == REQUIRED_COOKIE_A@);
    }
    if has_live(a, REQUIRED_COOKIE_B@, margin, now) {
        let i = choose|i: int|
            0 <= i < a.len() && #[trigger] a[i].name@ == REQUIRED_COOKIE_B@ && gitcode_domain(
                a[i].domain@,
            ) && !expired_at(a[i], margin, now);
        assert(b[i].name@ == REQUIRED_COOKIE_B@);
    }
    if has_live(b, REQUIRED_COOKIE_B@, margin, now) {
        let i = choose|i: int|
            0 <= i < b.len() && #[trigger] b[i].name@ == REQUIRED_COOKIE_B@ && gitcode_domain(
                b[i].domain@,
            ) && !expired_at(b[i], margin, now);
        assert(a[i].name@ == REQUIRED_COOKIE_B@);
    }
}

/// Why a login could not be had.
#[derive(Clone, Copy, Debug, PartialEq, Eq, Structural)]
pub enum AuthError {
    /// The auth cache holds no cookies.
    NoCookies,
    /// The browser profile holds no valid GitCode login.
    NotLoggedIn,
}

} // verus!
