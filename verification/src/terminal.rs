//! Remote terminals: the prompt set up for an interactive shell, how a
//! command's end is recognised in the terminal output, and the handshake
//! line of a stream client.
use crate::shell::{find_marker, marker_report, noise_stripped, shell_quote, shell_quoted, strip_terminal_noise};
use crate::text::{append_str, chars_of, join, join_chars, slice, string_of, vec_views};
use vstd::prelude::*;

verus! {

/// The prompt of an interactive remote shell: the working directory in
/// cyan and a green `$`.
pub const INTERACTIVE_PS1: &'static str =
    "\\[\\033[1;36m\\]\\w\\[\\033[0m\\] \\[\\033[1;32m\\]\\$\\[\\033[0m\\] ";

/// The exit status reported for a command that did not finish in time.
pub const TIMED_OUT_STATUS: i32 = 124;

/// The lines that set up an interactive prompt and then print `marker` on
/// a cleared line, so that the client knows the prompt is ready.
pub open spec fn prompt_prelude_for(marker: Seq<char>) -> Seq<char> {
    join(
        seq![
            "bind 'set enable-bracketed-paste off' 2>/dev/null || true"@,
            "alias ll='ls -l --color=auto'"@,
            "export PROMPT_COMMAND="@,
            "export PS1="@ + shell_quoted(INTERACTIVE_PS1@),
            "printf '\\033[2K\\r%s\\n' "@ + shell_quoted(marker),
            Seq::empty(),
        ],
        "\n"@,
    )
}

fn joined(a: &str, b: &str) -> (r: Vec<char>)
    ensures
        r@ == a@ + b@,
{
    let mut v = chars_of(a);
    append_str(&mut v, b);
    v
}

pub fn prompt_prelude(marker: &str) -> (r: String)
    ensures
        r@ == prompt_prelude_for(marker@),
{
    let mut parts: Vec<Vec<char>> = Vec::new();
    parts.push(chars_of("bind 'set enable-bracketed-paste off' 2>/dev/null || true"));
    parts.push(chars_of("alias ll='ls -l --color=auto'"));
    parts.push(chars_of("export PROMPT_COMMAND="));
    parts.push(joined("export PS1=", shell_quote(INTERACTIVE_PS1).as_str()));
    parts.push(joined("printf '\\033[2K\\r%s\\n' ", shell_quote(marker).as_str()));
    parts.push(Vec::new());
    assert(vec_views(parts@) =~= seq![
        "bind 'set enable-bracketed-paste off' 2>/dev/null || true"@,
        "alias ll='ls -l --color=auto'"@,
        "export PROMPT_COMMAND="@,
        "export PS1="@ + shell_quoted(INTERACTIVE_PS1@),
        "printf '\\033[2K\\r%s\\n' "@ + shell_quoted(marker@),
        Seq::<char>::empty(),
    ]);
    string_of(&join_chars(&parts, &chars_of("\n")))
}

/// `s` without its leading carriage returns and line feeds.
pub open spec fn without_leading_breaks(s: Seq<char>) -> Seq<char>
    decreases s.len(),
{
    if s.len() > 0 && (s[0] == '\r' || s[0] == '\n') {
        without_leading_breaks(s.drop_first())
    } else {
        s
    }
}

/// The output shown once the prompt is ready, without the line breaks
/// that the prompt setup left before it.
pub fn after_prompt(text: &str) -> (r: String)
    ensures
        r@ == without_leading_breaks(text@),
{
    let v = chars_of(text);
    let mut i: usize = 0;
    assert(v@.skip(0) == v@);
    while i < v.len() && (v[i] == '\r' || v[i] == '\n')
        invariant
            i <= v.len(),
            without_leading_breaks(v@) == without_leading_breaks(v@.skip(i as int)),
        decreases v.len() - i,
    {
        assert(v@.skip(i as int).drop_first() == v@.skip(i + 1));
        i += 1;
    }
    let r = slice(&v, i, v.len());
    assert(r@ == v@.skip(i as int));
    string_of(&r)
}

/// The terminal output as a command's client sees it: raw, or with the
/// escape sequences and carriage returns removed.
pub open spec fn shown(text: Seq<char>, raw: bool) -> Seq<char> {
    if raw {
        text
    } else {
        noise_stripped(text)
    }
}

/// What has come out of the terminal so far tells whether the command is
/// over: when the marker with a status follows its output, the status and
/// the output before the marker.
pub fn command_result(collected: &str, marker: &str, raw: bool) -> (r: Option<(i32, String)>)
    ensures
        match marker_report(collected@, marker@) {
            Some((n, t)) => r matches Some((s, o)) && s == n && o@ == shown(t, raw),
            None => r is None,
        },
{
    match find_marker(collected, marker) {
        Some((status, text)) => {
            if raw {
                Some((status, text))
            } else {
                Some((status, strip_terminal_noise(text.as_str())))
            }
        },
        None => None,
    }
}

/// What a command that did not finish in time reports: status 124 and the
/// output collected so far.
pub fn timed_out_result(collected: &str, raw: bool) -> (r: (i32, String))
    ensures
        r.0 == TIMED_OUT_STATUS,
        r.1@ == shown(collected@, raw),
{
    if raw {
        (TIMED_OUT_STATUS, collected.to_owned())
    } else {
        (TIMED_OUT_STATUS, strip_terminal_noise(collected))
    }
}

/// The handshake of a stream client is the first line: the bytes before
/// the first newline, and whatever followed it.
pub open spec fn header_split(data: Seq<u8>) -> Option<(Seq<u8>, Seq<u8>)> {
    if exists|i: int| 0 <= i < data.len() && data[i] == 10 {
        let i = choose|i: int| 0 <= i < data.len() && data[i] == 10 && forall|j: int| 0 <= j < i ==> data[j] != 10;
        Some((data.take(i), data.skip(i + 1)))
    } else {
        None
    }
}

/// A handshake line is read back as it was sent: a header without a
/// newline, then a newline, splits into that header and whatever followed.
pub proof fn lemma_header_reads_back(header: Seq<u8>, rest: Seq<u8>)
    requires
        forall|i: int| 0 <= i < header.len() ==> header[i] != 10,
    ensures
        header_split(header + seq![10u8] + rest) == Some((header, rest)),
{
    let data = header + seq![10u8] + rest;
    let n = header.len() as int;
    assert(data[n] == 10);
    let i = choose|i: int| 0 <= i < data.len() && data[i] == 10 && forall|j: int| 0 <= j < i ==> data[j] != 10;
    if i < n {
        assert(data[i] == header[i]);
    }
    if i > n {
        assert(data[n] != 10);
    }
    assert(data.take(n) =~= header);
    assert(data.skip(n + 1) =~= rest);
}

/// The largest handshake a stream accepts, in bytes.
pub const MAX_HEADER_BYTES: usize = 65536;

pub fn split_header(data: &Vec<u8>) -> (r: Option<(Vec<u8>, Vec<u8>)>)
    ensures
        match header_split(data@) {
            Some((h, rest)) => r matches Some((a, b)) && a@ == h && b@ == rest,
            None => r is None,
        },
{
    let mut i: usize = 0;
    while i < data.len()
        invariant
            i <= data.len(),
            forall|j: int| 0 <= j < i ==> data@[j] != 10,
        decreases data.len() - i,
    {
        if data[i] == 10 {
            proof {
                let k = choose|k: int| 0 <= k < data@.len() && data@[k] == 10 && forall|j: int| 0 <= j < k ==> data@[j] != 10;
                assert(k == i);
            }
            let mut head: Vec<u8> = Vec::new();
            let mut k: usize = 0;
            while k < i
                invariant
                    k <= i < data.len(),
                    head@ == data@.take(k as int),
                decreases i - k,
            {
                head.push(data[k]);
                k += 1;
                assert(head@ == data@.take(k as int));
            }
            let mut rest: Vec<u8> = Vec::new();
            let mut m: usize = i + 1;
            while m < data.len()
                invariant
                    i + 1 <= m <= data.len(),
                    rest@ == data@.subrange(i + 1, m as int),
                decreases data.len() - m,
            {
                rest.push(data[m]);
                m += 1;
                assert(rest@ == data@.subrange(i + 1, m as int));
            }
            assert(rest@ == data@.skip(i + 1));
            return Some((head, rest));
        }
        i += 1;
    }
    None
}

} // verus!
