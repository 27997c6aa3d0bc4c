//! Addresses that the command-line clients work with: the daemon's stream
//! address, the arguments a daemon is started with, and Chrome's DevTools
//! endpoints.
use crate::foreign::{opt_view, parse_url, url_encode, url_parse, UrlParts, UrlView};
use crate::notebook::encoded;
use crate::text::{
    append, append_str, chars_of, contains, decimal, decimal_chars, has_substring,
    parse_unsigned, parse_unsigned_chars, rfind_char, slice, string_of,
};
use vstd::prelude::*;

verus! {

/// The host of an address that names none.
pub const LOOPBACK: &'static str = "127.0.0.1";

/// The stream port of a `tcp://` address that names none.
pub const DEFAULT_STREAM_URL_PORT: u16 = 18788;

/// The API port of an address that names none.
pub const DEFAULT_API_URL_PORT: u16 = 18787;

/// Why an address could not be used.
pub enum AddressError {
    /// The text does not parse as a URL.
    BadUrl,
    /// The port is not a number from 0 to 65535.
    BadPort,
    /// A stream address with a scheme other than `tcp`.
    UnsupportedScheme(String),
    /// A DevTools address without a host.
    NoHost,
}

pub open spec fn text_or(o: Option<Seq<char>>, d: Seq<char>) -> Seq<char> {
    match o {
        Some(s) => s,
        None => d,
    }
}

/// The index of the last `:` in `s`.
pub open spec fn last_colon(s: Seq<char>) -> Option<int> {
    if exists|i: int| 0 <= i < s.len() && s[i] == ':' {
        Some(choose|i: int| 0 <= i < s.len() && s[i] == ':' && forall|j: int| i < j < s.len() ==> s[j] != ':')
    } else {
        None
    }
}

/// A stream address without a scheme: `<host>:<port>`, or a bare port on
/// the loopback host.
pub open spec fn bare_endpoint(s: Seq<char>) -> Result<(Seq<char>, u16), ()> {
    let (host, port_text) = match last_colon(s) {
        Some(i) => (s.take(i), s.skip(i + 1)),
        None => (LOOPBACK@, s),
    };
    match parse_unsigned(port_text, 65535) {
        Some(p) => Ok((host, p as u16)),
        None => Err(()),
    }
}

/// The host and port of a parsed `tcp://` address.
pub open spec fn tcp_endpoint(u: UrlView) -> Option<(Seq<char>, u16)> {
    if u.scheme == "tcp"@ {
        Some(
            (
                text_or(u.host, LOOPBACK@),
                match u.port {
                    Some(p) => p,
                    None => DEFAULT_STREAM_URL_PORT,
                },
            ),
        )
    } else {
        None
    }
}

/// The host and port of a stream address with a scheme, once parsed: the
/// scheme must be `tcp`; the host defaults to the loopback host and the port
/// to 18788.
pub fn stream_endpoint_from(url: &str, parsed: &UrlParts) -> (r: Result<(String, u16), AddressError>)
    ensures
        match tcp_endpoint(parsed@) {
            Some((h, p)) => r matches Ok((host, port)) && host@ == h && port == p,
            None => r matches Err(AddressError::UnsupportedScheme(e)) && e@ == url@,
        },
{
    if !crate::config::str_eq(parsed.scheme.as_str(), "tcp") {
        return Err(AddressError::UnsupportedScheme(url.to_owned()));
    }
    let host = match &parsed.host {
        Some(h) => h.clone(),
        None => LOOPBACK.to_owned(),
    };
    let port = match parsed.port {
        Some(p) => p,
        None => DEFAULT_STREAM_URL_PORT,
    };
    Ok((host, port))
}

/// Reads the host and port of a stream address. Without `://` it is
/// `<host>:<port>` split at the last `:`, or a bare port on the loopback
/// host; with it, it must parse as a `tcp://` URL.
pub fn parse_tcp_url(url: &str) -> (r: Result<(String, u16), AddressError>)
    ensures
        !contains(url@, "://"@) ==> match bare_endpoint(url@) {
            Ok((h, p)) => r matches Ok((host, port)) && host@ == h && port == p,
            Err(_) => r matches Err(AddressError::BadPort),
        },
        contains(url@, "://"@) ==> match url_parse(url@) {
            None => r matches Err(AddressError::BadUrl),
            Some(u) => match tcp_endpoint(u) {
                Some((h, p)) => r matches Ok((host, port)) && host@ == h && port == p,
                None => r matches Err(AddressError::UnsupportedScheme(e)) && e@ == url@,
            },
        },
{
    let v = chars_of(url);
    if !has_substring(&v, &chars_of("://")) {
        let (host, port_text) = match rfind_char(&v, ':') {
            Some(i) => {
                proof {
                    let k = choose|k: int|
                        0 <= k < v@.len() && v@[k] == ':' && forall|j: int|
                            k < j < v@.len() ==> v@[j] != ':';
                    assert(k == i);
                    assert(v@.subrange(0, i as int) == v@.take(i as int));
                    assert(v@.subrange(i + 1, v@.len() as int) == v@.skip(i + 1));
                }
                (slice(&v, 0, i), slice(&v, i + 1, v.len()))
            },
            None => (chars_of(LOOPBACK), v.clone()),
        };
        return match parse_unsigned_chars(&port_text, 65535) {
            Some(p) => Ok((string_of(&host), p as u16)),
            None => Err(AddressError::BadPort),
        };
    }
    match parse_url(url) {
        None => Err(AddressError::BadUrl),
        Some(u) => stream_endpoint_from(url, &u),
    }
}

/// The arguments a daemon is started with: its API host and port from the
/// API address (the loopback host and 18787 where it names none), its stream
/// host and port, and whether Chrome runs headless.
pub open spec fn launch_args(
    api: UrlView,
    stream_host: Seq<char>,
    stream_port: u16,
    headless: bool,
) -> Seq<Seq<char>> {
    seq![
        "--listen-host"@,
        text_or(api.host, LOOPBACK@),
        "--listen-port"@,
        decimal(
            (match api.port {
                Some(p) => p,
                None => DEFAULT_API_URL_PORT,
            }) as nat,
        ),
        "--stream-host"@,
        stream_host,
        "--stream-port"@,
        decimal(stream_port as nat),
        if headless {
            "--headless"@
        } else {
            "--visible"@
        },
    ]
}

pub open spec fn strings_of(v: Seq<String>) -> Seq<Seq<char>> {
    v.map_values(|s: String| s@)
}

/// Builds the daemon's arguments once the API address is parsed and the
/// stream address read.
pub fn launch_args_from(api: &UrlParts, stream_host: &str, stream_port: u16, headless: bool) -> (r:
    Vec<String>)
    ensures
        strings_of(r@) == launch_args(api@, stream_host@, stream_port, headless),
{
    let mut r: Vec<String> = Vec::new();
    r.push("--listen-host".to_owned());
    r.push(
        match &api.host {
            Some(h) => h.clone(),
            None => LOOPBACK.to_owned(),
        },
    );
    r.push("--listen-port".to_owned());
    let port = match api.port {
        Some(p) => p,
        None => DEFAULT_API_URL_PORT,
    };
    r.push(string_of(&decimal_chars(port as u64)));
    r.push("--stream-host".to_owned());
    r.push(stream_host.to_owned());
    r.push("--stream-port".to_owned());
    r.push(string_of(&decimal_chars(stream_port as u64)));
    r.push(
        if headless {
            "--headless".to_owned()
        } else {
            "--visible".to_owned()
        },
    );
    assert(strings_of(r@) =~= launch_args(api@, stream_host@, stream_port, headless));
    r
}

/// The arguments a daemon for the API address `api_url` and the stream
/// address `stream_url` is started with.
pub fn daemon_launch_args(api_url: &str, stream_url: &str, headless: bool) -> (r: Result<
    Vec<String>,
    AddressError,
>)
    ensures
        url_parse(api_url@) is None ==> (r matches Err(AddressError::BadUrl)),
        url_parse(api_url@) matches Some(api) ==> (r is Ok <==> (
        match (if contains(stream_url@, "://"@) {
            match url_parse(stream_url@) {
                Some(u) => match tcp_endpoint(u) {
                    Some(e) => Ok::<(Seq<char>, u16), ()>(e),
                    None => Err(()),
                },
                None => Err(()),
            }
        } else {
            bare_endpoint(stream_url@)
        }) {
            Ok((h, p)) => r matches Ok(args) && strings_of(args@) == launch_args(
                api,
                h,
                p,
                headless,
            ),
            Err(_) => false,
        })),
{
    let api = match parse_url(api_url) {
        Some(u) => u,
        None => return Err(AddressError::BadUrl),
    };
    let (host, port) = parse_tcp_url(stream_url)?;
    Ok(launch_args_from(&api, host.as_str(), port, headless))
}

// ---------------------------------------------------------------------------
// Chrome DevTools
// ---------------------------------------------------------------------------

/// `<scheme>://<host>[:<port>]` of a parsed DevTools address.
pub open spec fn devtools_base(u: UrlView) -> Option<Seq<char>> {
    match u.host {
        None => None,
        Some(h) => Some(
            u.scheme + "://"@ + h + match u.port {
                Some(p) => ":"@ + decimal(p as nat),
                None => Seq::empty(),
            },
        ),
    }
}

/// The base of Chrome's DevTools address `cdp_list_url`: its scheme, host
/// and port, if any.
pub fn cdp_base_url(cdp_list_url: &str) -> (r: Result<String, AddressError>)
    ensures
        match url_parse(cdp_list_url@) {
            None => r matches Err(AddressError::BadUrl),
            Some(u) => match devtools_base(u) {
                Some(b) => r matches Ok(s) && s@ == b,
                None => r matches Err(AddressError::NoHost),
            },
        },
{
    let u = match parse_url(cdp_list_url) {
        Some(u) => u,
        None => return Err(AddressError::BadUrl),
    };
    let host = match &u.host {
        Some(h) => h,
        None => return Err(AddressError::NoHost),
    };
    let mut v = chars_of(u.scheme.as_str());
    append_str(&mut v, "://");
    append_str(&mut v, host.as_str());
    match u.port {
        Some(p) => {
            append_str(&mut v, ":");
            append(&mut v, &decimal_chars(p as u64));
        },
        None => {
            assert(v@ + Seq::<char>::empty() == v@);
        },
    }
    Ok(string_of(&v))
}

/// The DevTools endpoint that opens `url` in a new tab.
pub fn new_tab_url(cdp_list_url: &str, url: &str) -> (r: Result<String, AddressError>)
    ensures
        match url_parse(cdp_list_url@) {
            None => r matches Err(AddressError::BadUrl),
            Some(u) => match devtools_base(u) {
                Some(b) => r matches Ok(s) && s@ == b + "/json/new?"@ + encoded(url@),
                None => r matches Err(AddressError::NoHost),
            },
        },
{
    let base = cdp_base_url(cdp_list_url)?;
    let mut v = chars_of(base.as_str());
    append_str(&mut v, "/json/new?");
    append_str(&mut v, url_encode(url).as_str());
    Ok(string_of(&v))
}

/// A DevTools error counts as a timeout when its message says so.
pub fn is_timeout_error(message: &str) -> (r: bool)
    ensures
        r == (contains(message@, "timed out"@) || contains(message@, "timeout"@)),
{
    let m = chars_of(message);
    has_substring(&m, &chars_of("timed out")) || has_substring(&m, &chars_of("timeout"))
}

} // verus!
