//! Calls into outside crates and into parts of std that vstd does not
//! specify. Each function marked `external_body`, each declared outside
//! type and each spec function without a body here is trusted: its contract
//! is stated from the outside crate's source or documentation and is not
//! proved. The spec functions with a body and the lemmas beside them are
//! ordinary, proved code.
use vstd::prelude::*;
use vstd::utf8::encode_utf8;

verus! {

// ---------------------------------------------------------------------------
// url
// ---------------------------------------------------------------------------

/// The parts of a parsed URL that the library reads, as plain values.
pub struct UrlParts {
    pub scheme: String,
    pub host: Option<String>,
    pub port: Option<u16>,
    pub path: String,
    pub query: Vec<(String, String)>,
}

/// The mathematical form of `UrlParts`.
pub struct UrlView {
    pub scheme: Seq<char>,
    pub host: Option<Seq<char>>,
    pub port: Option<u16>,
    pub path: Seq<char>,
    pub query: Seq<(Seq<char>, Seq<char>)>,
}

pub open spec fn opt_view(o: Option<String>) -> Option<Seq<char>> {
    match o {
        Some(s) => Some(s@),
        None => None,
    }
}

pub open spec fn pairs_view(q: Seq<(String, String)>) -> Seq<(Seq<char>, Seq<char>)> {
    q.map_values(|p: (String, String)| (p.0@, p.1@))
}

impl View for UrlParts {
    type V = UrlView;

    open spec fn view(&self) -> UrlView {
        UrlView {
            scheme: self.scheme@,
            host: opt_view(self.host),
            port: self.port,
            path: self.path@,
            query: pairs_view(self.query@),
        }
    }
}

/// What `url::Url::parse` makes of a text: `None` where it returns an error,
/// else the URL's scheme, `host_str`, `port`, `path` and decoded `query_pairs`.
pub uninterp spec fn url_parse(text: Seq<char>) -> Option<UrlView>;

/// Calls `url::Url::parse` and reads `scheme`, `host_str`, `port`, `path`
/// and `query_pairs` of the result. Claimed: the result is `None` exactly
/// where the parse fails, and otherwise holds those parts, as named by
/// `url_parse`.
#[verifier::external_body]
pub(crate) fn parse_url(text: &str) -> (r: Option<UrlParts>)
    ensures
        r is Some <==> url_parse(text@) is Some,
        r matches Some(u) ==> u@ == url_parse(text@).unwrap(),
{
    let u = url::Url::parse(text).ok()?;
    Some(UrlParts {
        scheme: u.scheme().to_string(),
        host: u.host_str().map(|h| h.to_string()),
        port: u.port(),
        path: u.path().to_string(),
        query: u.query_pairs().map(|(k, v)| (k.into_owned(), v.into_owned())).collect(),
    })
}

// ---------------------------------------------------------------------------
// urlencoding
// ---------------------------------------------------------------------------

/// The bytes that `urlencoding::encode` leaves as they are.
pub open spec fn is_unreserved(b: u8) -> bool {
    ||| (48 <= b && b <= 57)
    ||| (65 <= b && b <= 90)
    ||| (97 <= b && b <= 122)
    ||| b == 45
    ||| b == 46
    ||| b == 95
    ||| b == 126
}

pub open spec fn upper_hex(d: u8) -> char {
    if d < 10 {
        ((48 + d) as u8) as char
    } else {
        ((55 + d) as u8) as char
    }
}

/// Percent-encoding of every byte but the unreserved ones, with upper-case hex.
pub open spec fn percent_encoded(bytes: Seq<u8>) -> Seq<char>
    decreases bytes.len(),
{
    if bytes.len() == 0 {
        Seq::empty()
    } else {
        let b = bytes.last();
        let tail = if is_unreserved(b) {
            seq![b as char]
        } else {
            seq!['%', upper_hex(b / 16), upper_hex(b % 16)]
        };
        percent_encoded(bytes.drop_last()) + tail
    }
}

/// Calls `urlencoding::encode`. Its source percent-encodes each byte of the
/// UTF-8 form of `s` except ASCII letters, digits and `-`, `.`, `_`, `~`,
/// with upper-case hex digits; that is what the contract claims.
#[verifier::external_body]
pub(crate) fn url_encode(s: &str) -> (r: String)
    ensures
        r@ == percent_encoded(encode_utf8(s@)),
{
    urlencoding::encode(s).into_owned()
}

// ---------------------------------------------------------------------------
// regex
// ---------------------------------------------------------------------------

#[verifier::external_type_specification]
#[verifier::external_body]
pub struct ExRegexError(regex::Error);

/// What `regex::Regex::new(pattern)` followed by `replace_all(text, replacement)`
/// gives: `None` where the pattern does not compile.
pub uninterp spec fn regex_replaced(
    pattern: Seq<char>,
    text: Seq<char>,
    replacement: Seq<char>,
) -> Option<Seq<char>>;

/// What `regex::Regex::new(pattern)` followed by `captures(text)` gives:
/// `None` where the pattern does not compile, `Some(None)` where there is no
/// match, and otherwise the text of each capture group by index (group 0 is
/// the whole match; a group that took no part is `None`).
pub uninterp spec fn regex_captured(pattern: Seq<char>, text: Seq<char>) -> Option<
    Option<Seq<Option<Seq<char>>>>,
>;

/// What `regex::Regex::new(pattern)` followed by `find_iter(text)` gives:
/// `None` where the pattern does not compile, else the matched texts in order.
pub uninterp spec fn regex_found(pattern: Seq<char>, text: Seq<char>) -> Option<
    Seq<Seq<char>>,
>;

pub open spec fn opt_strings_view(v: Seq<Option<String>>) -> Seq<Option<Seq<char>>> {
    v.map_values(|o: Option<String>| opt_view(o))
}

pub open spec fn strings_view(v: Seq<String>) -> Seq<Seq<char>> {
    v.map_values(|s: String| s@)
}

/// Compiles `pattern` with `regex::Regex::new` and calls `replace_all`.
/// Claimed: the error comes exactly where compiling fails, and otherwise the
/// text is the one named by `regex_replaced`.
#[verifier::external_body]
pub(crate) fn regex_replace_all(pattern: &str, text: &str, replacement: &str) -> (r: Result<
    String,
    regex::Error,
>)
    ensures
        r is Err <==> regex_replaced(pattern@, text@, replacement@) is None,
        r matches Ok(s) ==> s@ == regex_replaced(pattern@, text@, replacement@).unwrap(),
{
    let re = regex::Regex::new(pattern)?;
    Ok(re.replace_all(text, replacement).into_owned())
}

/// Compiles `pattern` with `regex::Regex::new` and calls `captures`.
/// Claimed: the error comes exactly where compiling fails, and otherwise the
/// groups are those named by `regex_captured`.
#[verifier::external_body]
pub(crate) fn regex_captures(pattern: &str, text: &str) -> (r: Result<
    Option<Vec<Option<String>>>,
    regex::Error,
>)
    ensures
        r is Err <==> regex_captured(pattern@, text@) is None,
        r matches Ok(Some(g)) ==> regex_captured(pattern@, text@) == Some(
            Some(opt_strings_view(g@)),
        ),
        r matches Ok(None) ==> regex_captured(pattern@, text@) == Some(
            None::<Seq<Option<Seq<char>>>>,
        ),
{
    let re = regex::Regex::new(pattern)?;
    Ok(re.captures(text).map(|c| c.iter().map(|m| m.map(|m| m.as_str().to_string())).collect()))
}

/// Compiles `pattern` with `regex::Regex::new` and collects `find_iter`.
/// Claimed: the error comes exactly where compiling fails, and otherwise the
/// matches are those named by `regex_found`.
#[verifier::external_body]
pub(crate) fn regex_find_all(pattern: &str, text: &str) -> (r: Result<Vec<String>, regex::Error>)
    ensures
        r is Err <==> regex_found(pattern@, text@) is None,
        r matches Ok(m) ==> regex_found(pattern@, text@) == Some(strings_view(m@)),
{
    let re = regex::Regex::new(pattern)?;
    Ok(re.find_iter(text).map(|m| m.as_str().to_string()).collect())
}

// ---------------------------------------------------------------------------
// httpdate
// ---------------------------------------------------------------------------

/// The microseconds since the Unix epoch of the instant that
/// `httpdate::parse_http_date` reads from a text; `None` where it fails or
/// the instant lies before the epoch.
pub uninterp spec fn http_date_micros(text: Seq<char>) -> Option<i64>;

/// Calls `httpdate::parse_http_date` and measures the instant from the Unix
/// epoch. Claimed: the result is the one named by `http_date_micros`.
#[verifier::external_body]
pub(crate) fn parse_http_date(text: &str) -> (r: Option<i64>)
    ensures
        r == http_date_micros(text@),
{
    let time = httpdate::parse_http_date(text).ok()?;
    let since = time.duration_since(std::time::UNIX_EPOCH).ok()?;
    Some(since.as_micros() as i64)
}

// ---------------------------------------------------------------------------
// rand, std::hash, std::time
// ---------------------------------------------------------------------------

/// Fills `n` bytes with `rand::thread_rng().fill_bytes`. Claimed: `n` bytes
/// come back; their values are random and nothing is said of them.
#[verifier::external_body]
pub(crate) fn random_bytes(n: usize) -> (r: Vec<u8>)
    ensures
        r.len() == n,
{
    let mut data = vec![0u8; n];
    rand::RngCore::fill_bytes(&mut rand::thread_rng(), &mut data);
    data
}

/// What a fresh `std::collections::hash_map::DefaultHasher::new()` gives for
/// `text` after hashing it as a `str` and calling `finish`.
pub uninterp spec fn default_hash_of(text: Seq<char>) -> u64;

/// Hashes `text` with `std::collections::hash_map::DefaultHasher::new()`.
/// std documents that every hasher made by `new` is the same as every other
/// one made that way (it is not seeded per process), so the value is a
/// function of the text, named `default_hash_of`. The algorithm itself is
/// left unspecified by std and is not stated.
#[verifier::external_body]
pub(crate) fn default_hash(text: &str) -> (r: u64)
    ensures
        r == default_hash_of(text@),
{
    let mut hasher = std::collections::hash_map::DefaultHasher::new();
    std::hash::Hash::hash(text, &mut hasher);
    std::hash::Hasher::finish(&hasher)
}

/// Reads `SystemTime::now()` as microseconds since the Unix epoch (0 when the
/// clock is before the epoch). The clock is outside the program: nothing is
/// claimed of the value.
#[verifier::external_body]
pub(crate) fn now_micros() -> (r: i64) {
    match std::time::SystemTime::now().duration_since(std::time::UNIX_EPOCH) {
        Ok(since) => since.as_micros() as i64,
        Err(_) => 0,
    }
}

// ---------------------------------------------------------------------------
// base64
// ---------------------------------------------------------------------------

/// The character of a 6-bit value in the standard base64 alphabet.
pub open spec fn b64_char(v: int) -> char {
    if v < 26 {
        (65 + v) as char
    } else if v < 52 {
        (97 + (v - 26)) as char
    } else if v < 62 {
        (48 + (v - 52)) as char
    } else if v == 62 {
        '+'
    } else {
        '/'
    }
}

/// Standard base64 with `=` padding (RFC 4648, section 4): each group of
/// three bytes becomes four characters; a last group of one or two bytes
/// is padded.
pub open spec fn b64_encoded(bytes: Seq<u8>) -> Seq<char>
    decreases bytes.len(),
{
    if bytes.len() == 0 {
        Seq::empty()
    } else if bytes.len() == 1 {
        seq![b64_char((bytes[0] / 4) as int), b64_char((bytes[0] % 4) * 16), '=', '=']
    } else if bytes.len() == 2 {
        seq![
            b64_char((bytes[0] / 4) as int),
            b64_char((bytes[0] % 4) * 16 + (bytes[1] / 16) as int),
            b64_char((bytes[1] % 16) * 4),
            '=',
        ]
    } else {
        seq![
            b64_char((bytes[0] / 4) as int),
            b64_char((bytes[0] % 4) * 16 + (bytes[1] / 16) as int),
            b64_char((bytes[1] % 16) * 4 + (bytes[2] / 64) as int),
            b64_char((bytes[2] % 64) as int),
        ] + b64_encoded(bytes.skip(3))
    }
}

proof fn lemma_b64_char_injective(v: int, w: int)
    requires
        0 <= v < 64,
        0 <= w < 64,
    ensures
        b64_char(v) != '=',
        b64_char(v) == b64_char(w) ==> v == w,
{
}

proof fn lemma_b64_len(x: Seq<u8>)
    ensures
        b64_encoded(x).len() == 4 * ((x.len() + 2) / 3),
    decreases x.len(),
{
    if x.len() >= 3 {
        lemma_b64_len(x.skip(3));
    }
}

/// Different byte strings have different encodings, so decoding gives back
/// exactly what was encoded.
pub proof fn lemma_b64_injective(x: Seq<u8>, y: Seq<u8>)
    requires
        b64_encoded(x) == b64_encoded(y),
    ensures
        x == y,
    decreases x.len(),
{
    lemma_b64_len(x);
    lemma_b64_len(y);
    let e = b64_encoded(x);
    if x.len() == 0 || y.len() == 0 {
        assert(x.len() == 0 && y.len() == 0);
        assert(x =~= y);
        return;
    }
    let a0 = x[0] as int;
    let b0 = y[0] as int;
    lemma_b64_char_injective(a0 / 4, b0 / 4);
    assert(e[0] == b64_char(a0 / 4));
    assert(b64_encoded(y)[0] == b64_char(b0 / 4));
    assert(a0 / 4 == b0 / 4);
    if x.len() <= 2 || y.len() <= 2 {
        // A short input ends in padding where a long one has a character.
        if x.len() >= 3 {
            lemma_b64_char_injective((x[2] % 64) as int, 0);
            assert(e[3] == b64_char((x[2] % 64) as int));
            assert(b64_encoded(y)[3] == '=');
            assert(false);
        }
        if y.len() >= 3 {
            lemma_b64_char_injective((y[2] % 64) as int, 0);
            assert(b64_encoded(y)[3] == b64_char((y[2] % 64) as int));
            assert(e[3] == '=');
            assert(false);
        }
        if x.len() == 1 && y.len() == 2 {
            lemma_b64_char_injective((y[1] % 16) * 4, 0);
            assert(b64_encoded(y)[2] == b64_char((y[1] % 16) * 4));
            assert(e[2] == '=');
            assert(false);
        }
        if x.len() == 2 && y.len() == 1 {
            lemma_b64_char_injective((x[1] % 16) * 4, 0);
            assert(e[2] == b64_char((x[1] % 16) * 4));
            assert(b64_encoded(y)[2] == '=');
            assert(false);
        }
        if x.len() == 1 {
            lemma_b64_char_injective((x[0] % 4) * 16, (y[0] % 4) * 16);
            assert(e[1] == b64_char((x[0] % 4) * 16));
            assert(b64_encoded(y)[1] == b64_char((y[0] % 4) * 16));
            assert(x[0] == y[0]);
            assert(x =~= y);
        } else {
            let a1 = x[1] as int;
            let b1 = y[1] as int;
            lemma_b64_char_injective((a0 % 4) * 16 + a1 / 16, (b0 % 4) * 16 + b1 / 16);
            lemma_b64_char_injective((a1 % 16) * 4, (b1 % 16) * 4);
            assert(e[1] == b64_char((a0 % 4) * 16 + a1 / 16));
            assert(b64_encoded(y)[1] == b64_char((b0 % 4) * 16 + b1 / 16));
            assert(e[2] == b64_char((a1 % 16) * 4));
            assert(b64_encoded(y)[2] == b64_char((b1 % 16) * 4));
            assert(a0 == b0 && a1 == b1);
            assert(x =~= y);
        }
        return;
    }
    let a1 = x[1] as int;
    let b1 = y[1] as int;
    let a2 = x[2] as int;
    let b2 = y[2] as int;
    lemma_b64_char_injective((a0 % 4) * 16 + a1 / 16, (b0 % 4) * 16 + b1 / 16);
    lemma_b64_char_injective((a1 % 16) * 4 + a2 / 64, (b1 % 16) * 4 + b2 / 64);
    lemma_b64_char_injective(a2 % 64, b2 % 64);
    assert(e[1] == b64_char((a0 % 4) * 16 + a1 / 16));
    assert(b64_encoded(y)[1] == b64_char((b0 % 4) * 16 + b1 / 16));
    assert(e[2] == b64_char((a1 % 16) * 4 + a2 / 64));
    assert(b64_encoded(y)[2] == b64_char((b1 % 16) * 4 + b2 / 64));
    assert(e[3] == b64_char(a2 % 64));
    assert(b64_encoded(y)[3] == b64_char(b2 % 64));
    assert(a0 == b0 && a1 == b1 && a2 == b2);
    assert(b64_encoded(x.skip(3)) == e.skip(4));
    assert(b64_encoded(y.skip(3)) == b64_encoded(y).skip(4));
    lemma_b64_injective(x.skip(3), y.skip(3));
    assert(x =~= seq![x[0], x[1], x[2]] + x.skip(3));
    assert(y =~= seq![y[0], y[1], y[2]] + y.skip(3));
}

/// Calls `base64::engine::general_purpose::STANDARD.encode`. Claimed: the
/// text is the standard padded encoding of the bytes. The call panics when
/// the length of the encoding overflows `usize`; `requires` keeps the input
/// well below that.
#[verifier::external_body]
pub(crate) fn b64_encode(bytes: &[u8]) -> (r: String)
    requires
        bytes.len() <= usize::MAX / 2,
    ensures
        r@ == b64_encoded(bytes@),
{
    base64::Engine::encode(&base64::engine::general_purpose::STANDARD, bytes)
}

#[verifier::external_type_specification]
#[verifier::external_body]
pub struct ExDecodeError(base64::DecodeError);

/// Calls `base64::engine::general_purpose::STANDARD.decode`. That engine
/// requires canonical padding and no trailing bits, so claimed: the text of
/// any byte string's encoding decodes to those bytes, and what decodes is
/// the encoding of what it decodes to.
#[verifier::external_body]
pub(crate) fn b64_decode(text: &str) -> (r: Result<Vec<u8>, base64::DecodeError>)
    ensures
        r matches Ok(b) ==> b64_encoded(b@) == text@,
        r is Err ==> forall|x: Seq<u8>| b64_encoded(x) != text@,
{
    base64::Engine::decode(&base64::engine::general_purpose::STANDARD, text)
}

} // verus!
