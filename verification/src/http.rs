//! Requests to GitCode: the headers that go with each, and what an answer's
//! status and body mean.
use crate::foreign::{b64_encode, b64_encoded, pairs_view};
use crate::text::{
    append, append_str, ascii_lower, ascii_lower_chars, chars_of, decimal, decimal_chars, slice,
    string_of,
};
use vstd::prelude::*;

verus! {

pub const USER_AGENT: &'static str = "Mozilla/5.0 gitcode-jupyter-tool";

pub const ACCEPT: &'static str = "application/json, text/plain, */*";

pub const JSON_TYPE: &'static str = "application/json";

/// How much of an error body a message quotes, in characters.
pub const ERROR_BODY_LIMIT: usize = 1000;

/// The request methods the client uses.
#[derive(PartialEq, Eq, Structural, Clone, Copy, Debug)]
pub enum Method {
    Get,
    Head,
    Options,
    Post,
    Put,
    Delete,
}

/// A method that changes nothing on the server carries no XSRF token.
pub open spec fn is_safe(m: Method) -> bool {
    m == Method::Get || m == Method::Head || m == Method::Options
}

pub open spec fn has_name(h: Seq<(Seq<char>, Seq<char>)>, n: Seq<char>) -> bool {
    exists|i: int| 0 <= i < h.len() && (#[trigger] h[i]).0 == n
}

/// No header name occurs twice.
pub open spec fn unique_names(h: Seq<(Seq<char>, Seq<char>)>) -> bool {
    forall|i: int, j: int|
        0 <= i < h.len() && 0 <= j < h.len() && i != j ==> (#[trigger] h[i]).0 != (#[trigger] h[j]).0
}

/// The headers as a map from name to value.
pub open spec fn header_map(h: Seq<(Seq<char>, Seq<char>)>) -> Map<Seq<char>, Seq<char>> {
    Map::new(
        |n: Seq<char>| has_name(h, n),
        |n: Seq<char>| h[choose|i: int| 0 <= i < h.len() && h[i].0 == n].1,
    )
}

/// Sets each extra header in turn; a later one replaces an earlier one of
/// the same name, the name taken in lower case.
pub open spec fn with_extras(
    m: Map<Seq<char>, Seq<char>>,
    extras: Seq<(Seq<char>, Seq<char>)>,
) -> Map<Seq<char>, Seq<char>>
    decreases extras.len(),
{
    if extras.len() == 0 {
        m
    } else {
        with_extras(m, extras.drop_last()).insert(
            ascii_lower(extras.last().0),
            extras.last().1,
        )
    }
}

pub open spec fn insert_if_absent(
    m: Map<Seq<char>, Seq<char>>,
    n: Seq<char>,
    v: Seq<char>,
) -> Map<Seq<char>, Seq<char>> {
    if m.contains_key(n) {
        m
    } else {
        m.insert(n, v)
    }
}

/// The headers of a request: the user agent and accepted types, the cookie
/// header when there is one, the extra headers, the JSON content type when a
/// JSON body goes with it and no extra header set one, and the XSRF token
/// for a method that changes something, unless an extra header set it.
pub open spec fn request_header_map(
    method: Method,
    cookie: Seq<char>,
    xsrf: Seq<char>,
    extras: Seq<(Seq<char>, Seq<char>)>,
    json_body: bool,
) -> Map<Seq<char>, Seq<char>> {
    let base = map!["user-agent"@ => USER_AGENT@, "accept"@ => ACCEPT@];
    let with_cookie = if cookie.len() > 0 {
        base.insert("cookie"@, cookie)
    } else {
        base
    };
    let m = with_extras(with_cookie, extras);
    let m = if json_body {
        insert_if_absent(m, "content-type"@, JSON_TYPE@)
    } else {
        m
    };
    if xsrf.len() > 0 && !is_safe(method) {
        insert_if_absent(m, "x-xsrftoken"@, xsrf)
    } else {
        m
    }
}

proof fn lemma_set_update(h: Seq<(Seq<char>, Seq<char>)>, i: int, v: Seq<char>)
    requires
        unique_names(h),
        0 <= i < h.len(),
    ensures
        unique_names(h.update(i, (h[i].0, v))),
        header_map(h.update(i, (h[i].0, v))) == header_map(h).insert(h[i].0, v),
{
    let n0 = h[i].0;
    let w = h.update(i, (n0, v));
    assert forall|a: int, b: int|
        0 <= a < w.len() && 0 <= b < w.len() && a != b implies (#[trigger] w[a]).0 != (
        #[trigger] w[b]).0 by {
        assert(w[a].0 == h[a].0);
        assert(w[b].0 == h[b].0);
    }
    assert forall|n| #[trigger] has_name(w, n) <==> has_name(h, n) by {
        if has_name(w, n) {
            let a = choose|a: int| 0 <= a < w.len() && w[a].0 == n;
            assert(h[a].0 == n);
        }
        if has_name(h, n) {
            let a = choose|a: int| 0 <= a < h.len() && h[a].0 == n;
            assert(w[a].0 == n);
        }
    }
    assert forall|n| #[trigger] has_name(w, n) implies header_map(w)[n] == header_map(h).insert(
        n0,
        v,
    )[n] by {
        let a = choose|a: int| 0 <= a < w.len() && w[a].0 == n;
        let b = choose|b: int| 0 <= b < h.len() && h[b].0 == n;
        assert(h[a].0 == n);
        assert(a == b);
        if n == n0 {
            assert(a == i);
        }
    }
    assert(header_map(w) =~= header_map(h).insert(n0, v));
}

proof fn lemma_set_push(h: Seq<(Seq<char>, Seq<char>)>, n: Seq<char>, v: Seq<char>)
    requires
        unique_names(h),
        !has_name(h, n),
    ensures
        unique_names(h.push((n, v))),
        header_map(h.push((n, v))) == header_map(h).insert(n, v),
{
    let w = h.push((n, v));
    assert forall|a: int, b: int|
        0 <= a < w.len() && 0 <= b < w.len() && a != b implies (#[trigger] w[a]).0 != (
        #[trigger] w[b]).0 by {
        if a == h.len() {
            assert(h[b].0 != n);
        } else if b == h.len() {
            assert(h[a].0 != n);
        } else {
            assert(w[a] == h[a]);
            assert(w[b] == h[b]);
        }
    }
    assert forall|k| #[trigger] has_name(w, k) <==> (has_name(h, k) || k == n) by {
        if has_name(w, k) {
            let a = choose|a: int| 0 <= a < w.len() && w[a].0 == k;
            if a < h.len() {
                assert(h[a].0 == k);
            }
        }
        if has_name(h, k) {
            let a = choose|a: int| 0 <= a < h.len() && h[a].0 == k;
            assert(w[a].0 == k);
        }
        if k == n {
            assert(w[h.len() as int].0 == k);
        }
    }
    assert forall|k| #[trigger] has_name(w, k) implies header_map(w)[k] == header_map(h).insert(
        n,
        v,
    )[k] by {
        let a = choose|a: int| 0 <= a < w.len() && w[a].0 == k;
        if k == n {
            assert(a == h.len());
        } else {
            let b = choose|b: int| 0 <= b < h.len() && h[b].0 == k;
            assert(w[b].0 == k);
            assert(a == b);
        }
    }
    assert(header_map(w) =~= header_map(h).insert(n, v));
}

fn position(h: &Vec<(String, String)>, n: &Vec<char>) -> (r: Option<usize>)
    ensures
        r matches Some(i) ==> i < h.len() && pairs_view(h@)[i as int].0 == n@,
        r is None ==> !has_name(pairs_view(h@), n@),
{
    let mut i: usize = 0;
    while i < h.len()
        invariant
            i <= h.len(),
            forall|k: int| 0 <= k < i ==> (#[trigger] pairs_view(h@)[k]).0 != n@,
        decreases h.len() - i,
    {
        let name = chars_of(h[i].0.as_str());
        if crate::text::chars_eq(&name, n) {
            return Some(i);
        }
        i += 1;
    }
    None
}

/// Sets header `n` to `v`, replacing a header of that name.
fn set_header(h: &mut Vec<(String, String)>, n: &Vec<char>, v: String)
    requires
        unique_names(pairs_view(old(h)@)),
    ensures
        unique_names(pairs_view(final(h)@)),
        header_map(pairs_view(final(h)@)) == header_map(pairs_view(old(h)@)).insert(n@, v@),
{
    let ghost before = pairs_view(h@);
    match position(h, n) {
        Some(i) => {
            proof {
                lemma_set_update(before, i as int, v@);
            }
            let name = string_of(n);
            h.set(i, (name, v));
            assert(pairs_view(h@) =~= before.update(i as int, (before[i as int].0, v@)));
        },
        None => {
            proof {
                lemma_set_push(before, n@, v@);
            }
            h.push((string_of(n), v));
            assert(pairs_view(h@) =~= before.push((n@, v@)));
        },
    }
}

/// Sets header `n` to `v` unless a header of that name is there.
fn set_header_if_absent(h: &mut Vec<(String, String)>, n: &Vec<char>, v: String)
    requires
        unique_names(pairs_view(old(h)@)),
    ensures
        unique_names(pairs_view(final(h)@)),
        header_map(pairs_view(final(h)@)) == insert_if_absent(
            header_map(pairs_view(old(h)@)),
            n@,
            v@,
        ),
{
    if position(h, n).is_none() {
        set_header(h, n, v);
    }
}

proof fn lemma_with_extras_keeps_key(
    m: Map<Seq<char>, Seq<char>>,
    extras: Seq<(Seq<char>, Seq<char>)>,
    n: Seq<char>,
)
    requires
        forall|i: int| 0 <= i < extras.len() ==> ascii_lower(#[trigger] extras[i].0) != n,
    ensures
        with_extras(m, extras).contains_key(n) == m.contains_key(n),
    decreases extras.len(),
{
    if extras.len() > 0 {
        let d = extras.drop_last();
        assert forall|i: int| 0 <= i < d.len() implies ascii_lower(#[trigger] d[i].0) != n by {
            assert(d[i] == extras[i]);
        }
        lemma_with_extras_keeps_key(m, d, n);
        assert(ascii_lower(extras[extras.len() - 1].0) != n);
    }
}

/// Every request that can change something on the server (any method but
/// GET, HEAD and OPTIONS: POST, PUT, DELETE) carries a non-empty XSRF token
/// as `x-xsrftoken`, unless an extra header sets that name itself; GET,
/// HEAD and OPTIONS never get it from the token.
pub proof fn lemma_xsrf_on_changing_requests(
    method: Method,
    cookie: Seq<char>,
    xsrf: Seq<char>,
    extras: Seq<(Seq<char>, Seq<char>)>,
    json_body: bool,
)
    requires
        forall|i: int| 0 <= i < extras.len() ==> ascii_lower(#[trigger] extras[i].0) != "x-xsrftoken"@,
    ensures
        method != Method::Get && method != Method::Head && method != Method::Options && xsrf.len()
            > 0 ==> request_header_map(method, cookie, xsrf, extras, json_body).contains_key(
            "x-xsrftoken"@,
        ) && request_header_map(method, cookie, xsrf, extras, json_body)["x-xsrftoken"@] == xsrf,
        method == Method::Get || method == Method::Head || method == Method::Options
            ==> !request_header_map(method, cookie, xsrf, extras, json_body).contains_key(
            "x-xsrftoken"@,
        ),
{
    reveal_strlit("x-xsrftoken");
    reveal_strlit("user-agent");
    reveal_strlit("accept");
    reveal_strlit("cookie");
    reveal_strlit("content-type");
    let n = "x-xsrftoken"@;
    assert(n.len() == 11);
    assert("user-agent"@.len() == 10 && "accept"@.len() == 6 && "cookie"@.len() == 6);
    assert("content-type"@.len() == 12);
    let base = map!["user-agent"@ => USER_AGENT@, "accept"@ => ACCEPT@];
    let with_cookie = if cookie.len() > 0 {
        base.insert("cookie"@, cookie)
    } else {
        base
    };
    assert(!with_cookie.contains_key(n));
    lemma_with_extras_keeps_key(with_cookie, extras, n);
    let m = with_extras(with_cookie, extras);
    assert(!m.contains_key(n));
    let m2 = if json_body {
        insert_if_absent(m, "content-type"@, JSON_TYPE@)
    } else {
        m
    };
    assert(!m2.contains_key(n));
}

/// The headers of a request with `method`, the cookie header `cookie` and
/// the XSRF token `xsrf` of the login (either may be empty), the caller's
/// `extras`, and whether a JSON body goes with it. Names are in lower case
/// and occur once each.
pub fn request_headers(
    method: Method,
    cookie: &str,
    xsrf: &str,
    extras: &Vec<(String, String)>,
    json_body: bool,
) -> (r: Vec<(String, String)>)
    ensures
        unique_names(pairs_view(r@)),
        header_map(pairs_view(r@)) == request_header_map(
            method,
            cookie@,
            xsrf@,
            pairs_view(extras@),
            json_body,
        ),
{
    let mut h: Vec<(String, String)> = Vec::new();
    assert(header_map(pairs_view(h@)) =~= Map::<Seq<char>, Seq<char>>::empty());
    set_header(&mut h, &chars_of("user-agent"), USER_AGENT.to_owned());
    set_header(&mut h, &chars_of("accept"), ACCEPT.to_owned());
    let ghost base = map!["user-agent"@ => USER_AGENT@, "accept"@ => ACCEPT@];
    assert(header_map(pairs_view(h@)) =~= base);
    if !cookie.is_empty() {
        set_header(&mut h, &chars_of("cookie"), cookie.to_owned());
    }
    let ghost with_cookie = header_map(pairs_view(h@));
    let ghost ex = pairs_view(extras@);
    let mut i: usize = 0;
    while i < extras.len()
        invariant
            i <= extras.len(),
            ex == pairs_view(extras@),
            unique_names(pairs_view(h@)),
            header_map(pairs_view(h@)) == with_extras(with_cookie, ex.take(i as int)),
        decreases extras.len() - i,
    {
        let name = ascii_lower_chars(&chars_of(extras[i].0.as_str()));
        set_header(&mut h, &name, extras[i].1.clone());
        proof {
            assert(ex.take(i + 1).drop_last() == ex.take(i as int));
            assert(ex.take(i + 1).last() == ex[i as int]);
        }
        i += 1;
    }
    assert(ex.take(extras.len() as int) == ex);
    if json_body {
        set_header_if_absent(&mut h, &chars_of("content-type"), JSON_TYPE.to_owned());
    }
    let safe = match method {
        Method::Get | Method::Head | Method::Options => true,
        _ => false,
    };
    if !xsrf.is_empty() && !safe {
        set_header_if_absent(&mut h, &chars_of("x-xsrftoken"), xsrf.to_owned());
    }
    h
}

// ---------------------------------------------------------------------------
// Answers
// ---------------------------------------------------------------------------

/// `HTTP <status>: <url>: <body>`, quoting at most the first 1000
/// characters of the body.
pub open spec fn status_error(status: u16, url: Seq<char>, body: Seq<char>) -> Seq<char> {
    "HTTP "@ + decimal(status as nat) + ": "@ + url + ": "@ + body.take(
        if body.len() < 1000 {
            body.len() as int
        } else {
            1000
        },
    )
}

/// `authenticated request rejected with HTTP <status>: <url>`.
pub open spec fn rejected_error(status: u16, url: Seq<char>) -> Seq<char> {
    "authenticated request rejected with HTTP "@ + decimal(status as nat) + ": "@ + url
}

/// An answer with 401 or 403 means the login was refused; any other status
/// outside 200..=299 is an error that quotes the start of the body.
pub fn check_status(status: u16, url: &str, body: &str) -> (r: Result<(), String>)
    ensures
        (status == 401 || status == 403) ==> (r matches Err(e) && e@ == rejected_error(
            status,
            url@,
        )),
        (status != 401 && status != 403 && (status < 200 || status > 299)) ==> (r matches Err(e)
            && e@ == status_error(status, url@, body@)),
        (200 <= status <= 299) ==> r is Ok,
{
    if status == 401 || status == 403 {
        let mut v = chars_of("authenticated request rejected with HTTP ");
        append(&mut v, &decimal_chars(status as u64));
        append_str(&mut v, ": ");
        append_str(&mut v, url);
        return Err(string_of(&v));
    }
    if status < 200 || status > 299 {
        let b = chars_of(body);
        let n = if b.len() < ERROR_BODY_LIMIT {
            b.len()
        } else {
            ERROR_BODY_LIMIT
        };
        let mut v = chars_of("HTTP ");
        append(&mut v, &decimal_chars(status as u64));
        append_str(&mut v, ": ");
        append_str(&mut v, url);
        append_str(&mut v, ": ");
        append(&mut v, &slice(&b, 0, n));
        assert(b@.subrange(0, n as int) == b@.take(n as int));
        return Err(string_of(&v));
    }
    Ok(())
}

/// What the body of a successful answer stands for.
pub enum ResponseBody {
    /// The body in base64, for a caller that does not expect JSON.
    Encoded(String),
    /// An empty body, read as JSON `null`.
    Null,
    /// A body to read as JSON.
    Json,
}

/// A caller that does not expect JSON gets the body in base64; an empty
/// body is `null`; any other body is read as JSON.
pub fn response_body(bytes: &Vec<u8>, expect_json: bool) -> (r: ResponseBody)
    requires
        bytes.len() <= usize::MAX / 2,
    ensures
        !expect_json ==> (r matches ResponseBody::Encoded(s) && s@ == b64_encoded(bytes@)),
        expect_json && bytes.len() == 0 ==> r is Null,
        expect_json && bytes.len() > 0 ==> r is Json,
{
    if !expect_json {
        ResponseBody::Encoded(b64_encode(bytes.as_slice()))
    } else if bytes.len() == 0 {
        ResponseBody::Null
    } else {
        ResponseBody::Json
    }
}

} // verus!
