//! Copying files between the local machine and the notebook: where a
//! `jupyter:` path points, the shell scripts that move the bytes through a
//! remote terminal, and how the downloaded payload is cut out of the
//! terminal output.
use crate::config::{path_join, Env, DEFAULT_JUPYTER_CWD};
use crate::foreign::{b64_decode, b64_encode, b64_encoded, opt_view};
use crate::shell::{shell_quote, shell_quoted};
use crate::text::{
    append, append_str, chars_of, contains, ends_with, find, has_prefix, has_suffix, is_first_occurrence,
    is_ws, is_ws_char, join, join_chars, occurs_at, rfind_char, slice, starts_with, string_of,
    trim_end_char, trim_end_char_chars, vec_views,
};
use vstd::prelude::*;
use vstd::utf8::{encode_scalar, encode_utf8};

verus! {

/// The prefix that marks a path on the notebook.
pub const REMOTE_PREFIX: &'static str = "jupyter:";

/// Why a copy cannot go ahead.
pub enum TransferError {
    /// A path that should be on the notebook lacks the `jupyter:` prefix.
    NotRemote(String),
    /// Both paths, or neither, are on the notebook.
    OneRemoteNeeded,
}

/// The direction of a copy.
#[derive(PartialEq, Eq, Structural, Clone, Copy, Debug)]
pub enum Direction {
    Upload,
    Download,
}

pub open spec fn is_remote_spec(spec: Seq<char>) -> bool {
    starts_with(spec, REMOTE_PREFIX@)
}

/// The path names a file on the notebook.
pub fn is_remote(spec: &str) -> (r: bool)
    ensures
        r == is_remote_spec(spec@),
{
    has_prefix(&chars_of(spec), &chars_of(REMOTE_PREFIX))
}

/// Exactly one side of a copy is on the notebook; the copy goes toward it.
pub fn direction(source: &str, destination: &str) -> (r: Result<Direction, TransferError>)
    ensures
        is_remote_spec(source@) == is_remote_spec(destination@) ==> (r matches Err(
            TransferError::OneRemoteNeeded,
        )),
        !is_remote_spec(source@) && is_remote_spec(destination@) ==> r == Ok::<
            Direction,
            TransferError,
        >(Direction::Upload),
        is_remote_spec(source@) && !is_remote_spec(destination@) ==> r == Ok::<
            Direction,
            TransferError,
        >(Direction::Download),
{
    let s = is_remote(source);
    let d = is_remote(destination);
    if s == d {
        Err(TransferError::OneRemoteNeeded)
    } else if d {
        Ok(Direction::Upload)
    } else {
        Ok(Direction::Download)
    }
}

/// The directory that relative notebook paths start from: `JUPYTER_CWD`
/// when it is set, else the home directory.
pub open spec fn remote_cwd_of(env: Env) -> Seq<char> {
    match env.var("JUPYTER_CWD"@) {
        Some(v) => v,
        None => DEFAULT_JUPYTER_CWD@,
    }
}

pub fn remote_cwd(env: &Env) -> (r: String)
    ensures
        r@ == remote_cwd_of(*env),
{
    match env.get("JUPYTER_CWD") {
        Some(v) => v,
        None => DEFAULT_JUPYTER_CWD.to_owned(),
    }
}

/// The notebook path that `jupyter:<path>` names, relative paths taken from
/// `cwd`: an empty path is `.`, an absolute one stands as it is, and a
/// relative one is put under `cwd` (without its trailing slashes), unless
/// that is empty or `.`.
pub open spec fn remote_path_of(path: Seq<char>, cwd: Seq<char>) -> Seq<char> {
    let p = if path.len() == 0 {
        "."@
    } else {
        path
    };
    let base = trim_end_char(cwd, '/');
    if starts_with(p, "/"@) {
        p
    } else if base.len() == 0 || base == "."@ {
        p
    } else if base == "~"@ {
        "~/"@ + p
    } else {
        base + "/"@ + p
    }
}

/// Where a `jupyter:` path lands. An absolute path stands as it is. A
/// relative path (an empty one meaning `.`) is put under the working
/// directory with its trailing slashes taken off: `~` gives `~/` and the
/// path, any other directory (such as `~/work`) gives that directory, `/`
/// and the path; only an empty working directory or `.` leaves the path as
/// it is.
pub proof fn lemma_remote_path_lands_in_cwd(path: Seq<char>, cwd: Seq<char>)
    ensures
        ({
            let base = trim_end_char(cwd, '/');
            let p = if path.len() == 0 {
                "."@
            } else {
                path
            };
            let relative = path.len() == 0 || path[0] != '/';
            &&& (!relative ==> remote_path_of(path, cwd) == path)
            &&& (relative && base.len() > 0 && base != "."@ && base != "~"@ ==> remote_path_of(
                path,
                cwd,
            ) == base + "/"@ + p)
            &&& (relative && base == "~"@ ==> remote_path_of(path, cwd) == "~/"@ + p)
            &&& (relative && (base.len() == 0 || base == "."@) ==> remote_path_of(path, cwd) == p)
        }),
{
    reveal_strlit("/");
    reveal_strlit(".");
    reveal_strlit("~");
    reveal_strlit("~/");
    let p = if path.len() == 0 {
        "."@
    } else {
        path
    };
    assert(p.len() > 0);
    assert(starts_with(p, "/"@) <==> p[0] == '/') by {
        if p[0] == '/' {
            assert(p.take(1) =~= "/"@);
        }
        if starts_with(p, "/"@) {
            assert(p.take(1)[0] == p[0]);
        }
    }
    assert(path.len() == 0 ==> p[0] == '.');
    let relative = path.len() == 0 || path[0] != '/';
    assert(relative <==> !starts_with(p, "/"@));
    let base = trim_end_char(cwd, '/');
    assert(!relative ==> remote_path_of(path, cwd) == path);
    assert(relative && base.len() > 0 && base != "."@ && base != "~"@ ==> remote_path_of(path, cwd)
        == base + "/"@ + p);
    assert("~"@[0] != "."@[0] && "~"@.len() == 1);
    assert("~"@ != "."@);
    assert(relative && base == "~"@ ==> remote_path_of(path, cwd) == "~/"@ + p);
    assert(relative && (base.len() == 0 || base == "."@) ==> remote_path_of(path, cwd) == p);
}

/// The notebook path that `spec` names, from the remote directory `cwd`.
pub fn remote_path(spec: &str, cwd: &str) -> (r: Result<String, TransferError>)
    ensures
        !is_remote_spec(spec@) ==> (r matches Err(TransferError::NotRemote(e)) && e@ == spec@),
        is_remote_spec(spec@) ==> (r matches Ok(p) && p@ == remote_path_of(
            spec@.skip(REMOTE_PREFIX@.len() as int),
            cwd@,
        )),
{
    proof {
        reveal_strlit("jupyter:");
        reveal_strlit("/");
        reveal_strlit(".");
        reveal_strlit("~");
    }
    let s = chars_of(spec);
    let prefix = chars_of(REMOTE_PREFIX);
    if !has_prefix(&s, &prefix) {
        return Err(TransferError::NotRemote(spec.to_owned()));
    }
    let rest = slice(&s, prefix.len(), s.len());
    assert(rest@ == s@.skip(prefix@.len() as int));
    let p = if rest.len() == 0 {
        chars_of(".")
    } else {
        rest
    };
    if p[0] == '/' {
        assert(starts_with(p@, "/"@)) by {
            assert("/"@ =~= seq!['/']);
            assert(p@.take(1) =~= seq!['/']);
        }
        return Ok(string_of(&p));
    }
    assert(!starts_with(p@, "/"@)) by {
        if starts_with(p@, "/"@) {
            assert(p@.take(1)[0] == '/');
        }
    }
    let base = trim_end_char_chars(&chars_of(cwd), '/');
    if base.len() == 0 || (base.len() == 1 && base[0] == '.') {
        assert(base@.len() == 1 && base@[0] == '.' ==> base@ =~= "."@);
        return Ok(string_of(&p));
    }
    assert(base@ != "."@);
    if base.len() == 1 && base[0] == '~' {
        assert(base@ =~= "~"@);
        let mut v = chars_of("~/");
        append(&mut v, &p);
        return Ok(string_of(&v));
    }
    assert(base@ != "~"@);
    let mut v = base.clone();
    append_str(&mut v, "/");
    append(&mut v, &p);
    Ok(string_of(&v))
}

/// The last part of a notebook path, trailing slashes aside; `download`
/// where nothing is left.
pub open spec fn basename_of(path: Seq<char>) -> Seq<char> {
    let s = trim_end_char(path, '/');
    if s.len() == 0 {
        "download"@
    } else if exists|i: int| 0 <= i < s.len() && s[i] == '/' {
        let i = choose|i: int| 0 <= i < s.len() && s[i] == '/' && forall|j: int| i < j < s.len() ==> s[j] != '/';
        s.skip(i + 1)
    } else {
        s
    }
}

pub fn remote_basename(path: &str) -> (r: String)
    ensures
        r@ == basename_of(path@),
{
    let s = trim_end_char_chars(&chars_of(path), '/');
    if s.len() == 0 {
        return "download".to_owned();
    }
    match rfind_char(&s, '/') {
        Some(i) => {
            proof {
                let k = choose|k: int| 0 <= k < s@.len() && s@[k] == '/' && forall|j: int| k < j < s@.len() ==> s@[j] != '/';
                assert(k == i);
            }
            let r = slice(&s, i + 1, s.len());
            assert(r@ == s@.skip(i + 1));
            string_of(&r)
        },
        None => string_of(&s),
    }
}

/// Where a downloaded file goes: into `destination` when it names a
/// directory (it ends in `/`, or is one), else to `destination` itself.
pub open spec fn local_destination_of(source: Seq<char>, destination: Seq<char>, is_dir: bool) -> Seq<char> {
    if ends_with(destination, "/"@) || is_dir {
        path_join(destination, basename_of(source))
    } else {
        destination
    }
}

/// The local path that a download of the notebook path `source` to
/// `destination` writes; `destination_is_dir` says whether it is a
/// directory.
pub fn local_destination(source: &str, destination: &str, destination_is_dir: bool) -> (r: String)
    ensures
        r@ == local_destination_of(source@, destination@, destination_is_dir),
{
    proof {
        reveal_strlit("/");
    }
    if has_suffix(&chars_of(destination), &chars_of("/")) || destination_is_dir {
        crate::config::join_path(destination, remote_basename(source).as_str())
    } else {
        destination.to_owned()
    }
}

/// The notebook path an upload of a local file named `file_name` goes to:
/// into the directory when the destination ends in `/` (under the name
/// `upload` where the source has no name), else the destination itself.
pub fn remote_destination(file_name: Option<&str>, destination: &str, cwd: &str) -> (r: Result<
    String,
    TransferError,
>)
    ensures
        !is_remote_spec(destination@) ==> (r matches Err(TransferError::NotRemote(e)) && e@
            == destination@),
        is_remote_spec(destination@) ==> (r matches Ok(p) && {
            let remote = remote_path_of(destination@.skip(REMOTE_PREFIX@.len() as int), cwd@);
            p@ == if ends_with(remote, "/"@) {
                remote + match file_name {
                    Some(n) => n@,
                    None => "upload"@,
                }
            } else {
                remote
            }
        }),
{
    proof {
        reveal_strlit("/");
    }
    let remote = remote_path(destination, cwd)?;
    let v = chars_of(remote.as_str());
    if has_suffix(&v, &chars_of("/")) {
        let mut w = v.clone();
        match file_name {
            Some(n) => append_str(&mut w, n),
            None => append_str(&mut w, "upload"),
        }
        Ok(string_of(&w))
    } else {
        Ok(remote)
    }
}

/// The mode an upload asks for: `0o755` for a directory, else the file's
/// permission bits.
pub fn upload_mode(is_dir: bool, file_mode: u32) -> (r: u32)
    ensures
        is_dir ==> r == 0o755,
        !is_dir ==> r == file_mode % 512,
{
    if is_dir {
        0o755
    } else {
        file_mode % 512
    }
}

// ---------------------------------------------------------------------------
// Payloads
// ---------------------------------------------------------------------------

/// The text that carries `bytes` through the terminal.
pub fn encode_payload(bytes: &Vec<u8>) -> (r: String)
    requires
        bytes.len() <= usize::MAX / 2,
    ensures
        r@ == b64_encoded(bytes@),
{
    b64_encode(bytes.as_slice())
}

/// The bytes that a payload text carries; `None` where it is no canonical
/// base64 text.
pub fn decode_payload(text: &str) -> (r: Option<Vec<u8>>)
    ensures
        r matches Some(b) ==> b64_encoded(b@) == text@,
        r is None ==> forall|x: Seq<u8>| b64_encoded(x) != text@,
{
    match b64_decode(text) {
        Ok(b) => Some(b),
        Err(_) => None,
    }
}

/// What is sent as a payload comes back as it was.
pub proof fn lemma_payload_round_trip(bytes: Seq<u8>, back: Seq<u8>)
    requires
        b64_encoded(back) == b64_encoded(bytes),
    ensures
        back == bytes,
{
    crate::foreign::lemma_b64_injective(back, bytes);
}

// ---------------------------------------------------------------------------
// Remote scripts
// ---------------------------------------------------------------------------

/// Turns off echo and the prompts before a script is sent.
pub const QUIET_PRELUDE: &'static str = "stty -echo 2>/dev/null || true\nexport PS1='' PS2=''\n";

pub const DOWNLOAD_BEGIN_MARK: &'static str = "__GJTD_DOWNLOAD_BEGIN__";

pub const DOWNLOAD_END_MARK: &'static str = "__GJTD_DOWNLOAD_END__";

/// The octal digits of `n`.
pub open spec fn octal(n: nat) -> Seq<char>
    decreases n,
{
    if n < 8 {
        seq![crate::text::digit_char(n)]
    } else {
        octal(n / 8) + seq![crate::text::digit_char(n % 8)]
    }
}

pub fn octal_chars(n: u32) -> (r: Vec<char>)
    ensures
        r@ == octal(n as nat),
    decreases n,
{
    if n < 8 {
        let mut v = Vec::new();
        v.push(crate::text::digit_char_exec(n as u64));
        v
    } else {
        let mut v = octal_chars(n / 8);
        v.push(crate::text::digit_char_exec((n % 8) as u64));
        v
    }
}

/// `<prefix><token>__` followed by `suffix`: the markers that scripts print.
pub fn marker(prefix: &str, token: &str, suffix: &str) -> (r: String)
    ensures
        r@ == prefix@ + token@ + "__"@ + suffix@,
{
    let mut v = chars_of(prefix);
    append_str(&mut v, token);
    append_str(&mut v, "__");
    append_str(&mut v, suffix);
    string_of(&v)
}

/// What puts the uploaded file in place: an archive is unpacked into the
/// destination directory; a file is written, its directory made first, and
/// given `mode`.
pub open spec fn upload_decode_script(destination: Seq<char>, mode: u32, is_archive: bool) -> Seq<
    char,
> {
    let d = shell_quoted(destination);
    if is_archive {
        "mkdir -p "@ + d + "\nbase64 -d \"$tmp_b64\" | tar -xzf - -C "@ + d
    } else {
        "mkdir -p \"$(dirname "@ + d + ")\"\nbase64 -d \"$tmp_b64\" > "@ + d + "\nchmod "@
            + octal(mode as nat) + " "@ + d
    }
}

pub fn upload_decode(destination: &str, mode: u32, is_archive: bool) -> (r: String)
    ensures
        r@ == upload_decode_script(destination@, mode, is_archive),
{
    let d = shell_quote(destination);
    if is_archive {
        let mut v = chars_of("mkdir -p ");
        append_str(&mut v, d.as_str());
        append_str(&mut v, "\nbase64 -d \"$tmp_b64\" | tar -xzf - -C ");
        append_str(&mut v, d.as_str());
        string_of(&v)
    } else {
        let mut v = chars_of("mkdir -p \"$(dirname ");
        append_str(&mut v, d.as_str());
        append_str(&mut v, ")\"\nbase64 -d \"$tmp_b64\" > ");
        append_str(&mut v, d.as_str());
        append_str(&mut v, "\nchmod ");
        append(&mut v, &octal_chars(mode));
        append_str(&mut v, " ");
        append_str(&mut v, d.as_str());
        string_of(&v)
    }
}

pub open spec fn line_parts(v: Seq<String>) -> Seq<Seq<char>> {
    v.map_values(|s: String| s@)
}

fn lines_of(parts: &Vec<String>) -> (r: String)
    ensures
        r@ == join(line_parts(parts@), "\n"@),
{
    let mut cs: Vec<Vec<char>> = Vec::new();
    let mut i: usize = 0;
    while i < parts.len()
        invariant
            i <= parts.len(),
            vec_views(cs@) == line_parts(parts@).take(i as int),
        decreases parts.len() - i,
    {
        let ghost before = vec_views(cs@);
        cs.push(chars_of(parts[i].as_str()));
        assert(vec_views(cs@) =~= before.push(parts@[i as int]@));
        assert(line_parts(parts@).take(i + 1) =~= line_parts(parts@).take(i as int).push(
            parts@[i as int]@,
        ));
        i += 1;
    }
    assert(line_parts(parts@).take(parts.len() as int) == line_parts(parts@));
    string_of(&join_chars(&cs, &chars_of("\n")))
}

/// The start of an upload: a temporary file is made (and removed on exit)
/// and the payload that follows is copied into it up to the line
/// `heredoc`.
pub open spec fn upload_open_script(heredoc: Seq<char>) -> Seq<char> {
    join(
        seq![
            "set +e"@,
            "tmp_b64=$(mktemp /tmp/gjtd-upload.XXXXXX.b64)"@,
            "cleanup_gjtd_upload() { rm -f \"$tmp_b64\"; }"@,
            "trap cleanup_gjtd_upload EXIT"@,
            "cat > \"$tmp_b64\" <<'"@ + heredoc + "'"@,
            Seq::empty(),
        ],
        "\n"@,
    )
}

pub fn upload_open(heredoc: &str) -> (r: String)
    ensures
        r@ == upload_open_script(heredoc@),
{
    let mut parts: Vec<String> = Vec::new();
    parts.push("set +e".to_owned());
    parts.push("tmp_b64=$(mktemp /tmp/gjtd-upload.XXXXXX.b64)".to_owned());
    parts.push("cleanup_gjtd_upload() { rm -f \"$tmp_b64\"; }".to_owned());
    parts.push("trap cleanup_gjtd_upload EXIT".to_owned());
    let mut cat = chars_of("cat > \"$tmp_b64\" <<'");
    append_str(&mut cat, heredoc);
    append_str(&mut cat, "'");
    parts.push(string_of(&cat));
    parts.push(String::new());
    assert(line_parts(parts@) =~= seq![
        "set +e"@,
        "tmp_b64=$(mktemp /tmp/gjtd-upload.XXXXXX.b64)"@,
        "cleanup_gjtd_upload() { rm -f \"$tmp_b64\"; }"@,
        "trap cleanup_gjtd_upload EXIT"@,
        "cat > \"$tmp_b64\" <<'"@ + heredoc@ + "'"@,
        Seq::<char>::empty(),
    ]);
    lines_of(&parts)
}

/// The end of an upload: the payload's closing line, the command that puts
/// the file in place, and the line that reports its status after `marker`.
pub open spec fn upload_close_script(heredoc: Seq<char>, decode: Seq<char>, marker: Seq<char>) -> Seq<
    char,
> {
    join(
        seq![
            heredoc,
            decode,
            "__gjtd_upload_status=$?"@,
            "printf '"@ + marker + "%s\\n' \"$__gjtd_upload_status\""@,
            Seq::empty(),
        ],
        "\n"@,
    )
}

pub fn upload_close(heredoc: &str, decode: &str, marker: &str) -> (r: String)
    ensures
        r@ == upload_close_script(heredoc@, decode@, marker@),
{
    let mut parts: Vec<String> = Vec::new();
    parts.push(heredoc.to_owned());
    parts.push(decode.to_owned());
    parts.push("__gjtd_upload_status=$?".to_owned());
    let mut p = chars_of("printf '");
    append_str(&mut p, marker);
    append_str(&mut p, "%s\\n' \"$__gjtd_upload_status\"");
    parts.push(string_of(&p));
    parts.push(String::new());
    assert(line_parts(parts@) =~= seq![
        heredoc@,
        decode@,
        "__gjtd_upload_status=$?"@,
        "printf '"@ + marker@ + "%s\\n' \"$__gjtd_upload_status\""@,
        Seq::<char>::empty(),
    ]);
    lines_of(&parts)
}

/// The size in bytes of the pieces a payload is cut into: `chunk_size`, at
/// least one.
pub open spec fn chunk_bytes(chunk_size: usize) -> int {
    if chunk_size == 0 {
        1
    } else {
        chunk_size as int
    }
}

/// Byte offset `b` of the UTF-8 form of `p` falls between two characters
/// (or at either end).
pub open spec fn at_char_edge(p: Seq<char>, b: int) -> bool {
    exists|j: int| 0 <= j <= p.len() && #[trigger] encode_utf8(p.take(j)).len() == b
}

/// The number of pieces of at most `k` bytes that `len` bytes make.
pub open spec fn piece_count(len: int, k: int) -> int {
    (len + k - 1) / k
}

/// What a payload is sent as: its UTF-8 bytes cut into pieces of `k` bytes
/// (the last may be shorter), each sent as the text those bytes encode,
/// then a newline when the payload does not end in one.
pub open spec fn sent_pieces(v: Seq<String>, p: Seq<char>, k: int) -> bool {
    let bytes = encode_utf8(p);
    let n = piece_count(bytes.len() as int, k);
    &&& v.len() == n + if ends_with(p, "\n"@) {
        0int
    } else {
        1int
    }
    &&& forall|i: int|
        0 <= i < n ==> encode_utf8((#[trigger] v[i])@) == bytes.subrange(
            i * k,
            if i * k + k < bytes.len() {
                i * k + k
            } else {
                bytes.len() as int
            },
        )
    &&& (!ends_with(p, "\n"@) ==> v[n]@ == "\n"@)
}

proof fn lemma_encode_concat(a: Seq<char>, b: Seq<char>)
    ensures
        encode_utf8(a + b) == encode_utf8(a) + encode_utf8(b),
    decreases a.len(),
{
    if a.len() == 0 {
        assert(a + b =~= b);
        assert(encode_utf8(a) + encode_utf8(b) =~= encode_utf8(b));
    } else {
        assert((a + b)[0] == a[0]);
        assert((a + b).drop_first() =~= a.drop_first() + b);
        lemma_encode_concat(a.drop_first(), b);
        assert(encode_utf8(a + b) =~= encode_utf8(a) + encode_utf8(b));
    }
}

proof fn lemma_encode_prefix(p: Seq<char>, j1: int, j2: int)
    requires
        0 <= j1 <= j2 <= p.len(),
    ensures
        encode_utf8(p.take(j1)).len() <= encode_utf8(p.take(j2)).len(),
{
    assert(p.take(j2) =~= p.take(j1) + p.subrange(j1, j2));
    lemma_encode_concat(p.take(j1), p.subrange(j1, j2));
}

proof fn lemma_mul_step(m: int, o: int, k: int)
    by (nonlinear_arith)
    requires
        k > 0,
    ensures
        m <= o ==> m * k <= o * k,
        m >= o + 1 ==> m * k >= o * k + k,
{
}

/// The number of bytes in the UTF-8 form of `c`.
fn utf8_width(c: char) -> (r: usize)
    ensures
        r == encode_utf8(seq![c]).len(),
        1 <= r <= 4,
{
    proof {
        vstd::utf8::char_is_scalar(c);
        let one = seq![c];
        assert(one[0] == c);
        assert(one.drop_first() =~= Seq::<char>::empty());
        assert(encode_utf8(Seq::<char>::empty()) =~= Seq::<u8>::empty());
        assert(encode_utf8(one) == encode_scalar(c as u32) + encode_utf8(one.drop_first()));
        assert(encode_utf8(one) =~= encode_scalar(c as u32));
    }
    let v = c as u32;
    if v <= 0x7f {
        1
    } else if v <= 0x7ff {
        2
    } else if v <= 0xffff {
        3
    } else {
        4
    }
}

/// The pieces in which a payload goes to the terminal: its UTF-8 bytes in
/// pieces of `chunk_size` bytes (at least one), each sent as text, then a
/// newline when the payload does not end in one. A piece that would cut a
/// character in two cannot be sent as text, and then there are none.
pub fn payload_chunks(payload: &str, chunk_size: usize) -> (r: Option<Vec<String>>)
    ensures
        r is Some <==> forall|m: int|
            0 < m && m * chunk_bytes(chunk_size) < encode_utf8(payload@).len() ==> at_char_edge(
                payload@,
                #[trigger] (m * chunk_bytes(chunk_size)),
            ),
        r matches Some(v) ==> sent_pieces(v@, payload@, chunk_bytes(chunk_size)),
{
    let k: usize = if chunk_size == 0 {
        1
    } else {
        chunk_size
    };
    let p = chars_of(payload);
    let total = crate::text::byte_len(payload);
    let ghost bytes = encode_utf8(payload@);
    let mut out: Vec<String> = Vec::new();
    let mut cur: Vec<char> = Vec::new();
    let mut cb: usize = 0;
    let mut bi: usize = 0;
    let mut i: usize = 0;
    proof {
        assert(p@.take(0) =~= Seq::<char>::empty());
        assert(cur@ =~= Seq::<char>::empty());
        assert(bytes.take(0) =~= Seq::<u8>::empty());
        assert(bytes.subrange(0, 0) =~= Seq::<u8>::empty());
        assert(0 * (k as int) == 0) by (nonlinear_arith);
    }
    while i < p.len()
        invariant
            p@ == payload@,
            bytes == encode_utf8(payload@),
            total == bytes.len(),
            k as int == chunk_bytes(chunk_size),
            k >= 1,
            i <= p.len(),
            bi == encode_utf8(p@.take(i as int)).len(),
            bytes.take(bi as int) == encode_utf8(p@.take(i as int)),
            bi == out.len() * k + cb,
            cb < k,
            forall|j: int|
                0 <= j < out.len() ==> encode_utf8((#[trigger] out@[j])@) == bytes.subrange(
                    j * k,
                    j * k + k,
                ),
            encode_utf8(cur@) == bytes.subrange(out.len() * k, bi as int),
            forall|m: int| 0 < m && m * k <= bi ==> at_char_edge(payload@, #[trigger] (m * k)),
        decreases p.len() - i,
    {
        let c = p[i];
        let l = utf8_width(c);
        let ghost o = out.len() as int;
        let ghost before = p@.take(i as int);
        proof {
            assert(p@.take(i + 1) =~= before + seq![c]);
            lemma_encode_concat(before, seq![c]);
            assert(p@ =~= p@.take(i + 1) + p@.skip(i + 1));
            lemma_encode_concat(p@.take(i + 1), p@.skip(i + 1));
            assert(bytes.take(bi + l) =~= encode_utf8(p@.take(i + 1)));
            assert(bytes.subrange(bi as int, bi + l) =~= encode_utf8(seq![c]));
            lemma_mul_step(o, o, k as int);
        }
        if l > k - cb {
            proof {
                let m = o + 1;
                lemma_mul_step(m, o, k as int);
                assert(m * k == o * k + k) by (nonlinear_arith)
                    requires
                        m == o + 1,
                ;
                assert(bi < m * k < bi + l);
                assert(m * k < bytes.len());
                assert(!at_char_edge(payload@, m * k)) by {
                    if at_char_edge(payload@, m * k) {
                        let j = choose|j: int|
                            0 <= j <= payload@.len() && #[trigger] encode_utf8(payload@.take(j)).len()
                                == m * k;
                        if j <= i {
                            lemma_encode_prefix(p@, j, i as int);
                        } else {
                            lemma_encode_prefix(p@, i + 1, j);
                        }
                    }
                }
            }
            return None;
        }
        let ghost old_cur = cur@;
        cur.push(c);
        proof {
            lemma_encode_concat(old_cur, seq![c]);
            assert(cur@ =~= old_cur + seq![c]);
            assert(bytes.subrange(o * k, bi + l) =~= bytes.subrange(o * k, bi as int)
                + bytes.subrange(bi as int, bi + l));
        }
        cb = cb + l;
        bi = bi + l;
        i = i + 1;
        if cb == k {
            let ghost done = cur@;
            out.push(string_of(&cur));
            cur = Vec::new();
            cb = 0;
            proof {
                assert(bytes.subrange(bi as int, bi as int) =~= Seq::<u8>::empty());
                assert(cur@ =~= Seq::<char>::empty());
                assert forall|j: int|
                    0 <= j < out.len() implies encode_utf8((#[trigger] out@[j])@) == bytes.subrange(
                    j * k,
                    j * k + k,
                ) by {
                    if j < o {
                        assert(out@[j] == out@.drop_last()[j]);
                    }
                }
                lemma_mul_step(o + 1, o, k as int);
                assert((o + 1) * k == o * k + k) by (nonlinear_arith);
            }
        }
        proof {
            assert forall|m: int| 0 < m && m * k <= bi implies at_char_edge(
                payload@,
                #[trigger] (m * k),
            ) by {
                lemma_mul_step(m, o, k as int);
                if m * k > bi - l {
                    assert(m * k == bi);
                    assert(encode_utf8(payload@.take(i as int)).len() == m * k);
                }
            }
        }
    }
    proof {
        assert(p@.take(i as int) =~= p@);
        assert(bytes.take(bi as int) =~= bytes);
    }
    let ghost o = out.len() as int;
    let ghost complete = out@;
    if cb > 0 {
        out.push(string_of(&cur));
    }
    proof {
        if cb > 0 {
            assert(bytes.len() + k - 1 == (o + 1) * k + (cb - 1)) by (nonlinear_arith)
                requires
                    bytes.len() == o * k + cb,
            ;
            vstd::arithmetic::div_mod::lemma_fundamental_div_mod_converse(
                bytes.len() + k - 1,
                k as int,
                o + 1,
                cb - 1,
            );
        } else {
            assert(bytes.len() + k - 1 == o * k + (k - 1));
            vstd::arithmetic::div_mod::lemma_fundamental_div_mod_converse(
                bytes.len() + k - 1,
                k as int,
                o,
                k - 1,
            );
        }
    }
    let ghost n = piece_count(bytes.len() as int, k as int);
    proof {
        assert forall|j: int|
            0 <= j < n implies encode_utf8((#[trigger] out@[j])@) == bytes.subrange(
            j * k,
            if j * k + k < bytes.len() {
                j * k + k
            } else {
                bytes.len() as int
            },
        ) by {
            if j < o {
                assert(out@[j] == complete[j]);
                lemma_mul_step(j + 1, o, k as int);
                assert((j + 1) * k == j * k + k) by (nonlinear_arith);
            } else {
                assert(j == o);
            }
        }
    }
    proof {
        reveal_strlit("\n");
    }
    if !has_suffix(&p, &chars_of("\n")) {
        out.push("\n".to_owned());
        proof {
            assert forall|j: int|
                0 <= j < n implies encode_utf8((#[trigger] out@[j])@) == bytes.subrange(
                j * k,
                if j * k + k < bytes.len() {
                    j * k + k
                } else {
                    bytes.len() as int
                },
            ) by {
                assert(out@[j] == out@.drop_last()[j]);
            }
        }
    }
    Some(out)
}

/// The script that prints a notebook path's content as base64 between the
/// begin and end marks; a directory is sent as a gzip'd tar of its content,
/// and is refused without `recursive` (as a file is with it).
pub open spec fn download_script(source: Seq<char>, recursive: bool) -> Seq<char> {
    let s = shell_quoted(source);
    let begin = shell_quoted(DOWNLOAD_BEGIN_MARK@);
    let end = shell_quoted(DOWNLOAD_END_MARK@);
    if recursive {
        "source_path="@ + s + "\nif [ ! -d \"$source_path\" ]; then\n  printf '%s\\n' \"$source_path is not a directory; use without -r to copy files\" >&2\n  exit 1\nfi\nprintf '%s\\n' "@
            + begin + "\ntar -czf - -C \"$source_path\" . | base64\nprintf '%s\\n' "@ + end
            + "\n"@
    } else {
        "source_path="@ + s + "\nif [ -d \"$source_path\" ]; then\n  printf '%s\\n' \"$source_path is a directory; use -r to copy directories\" >&2\n  exit 1\nfi\nprintf '%s\\n' "@
            + begin + "\nbase64 < \"$source_path\"\nprintf '%s\\n' "@ + end + "\n"@
    }
}

pub fn download_command(source: &str, recursive: bool) -> (r: String)
    ensures
        r@ == download_script(source@, recursive),
{
    let s = shell_quote(source);
    let begin = shell_quote(DOWNLOAD_BEGIN_MARK);
    let end = shell_quote(DOWNLOAD_END_MARK);
    let mut v = chars_of("source_path=");
    append_str(&mut v, s.as_str());
    if recursive {
        append_str(
            &mut v,
            "\nif [ ! -d \"$source_path\" ]; then\n  printf '%s\\n' \"$source_path is not a directory; use without -r to copy files\" >&2\n  exit 1\nfi\nprintf '%s\\n' ",
        );
        append_str(&mut v, begin.as_str());
        append_str(&mut v, "\ntar -czf - -C \"$source_path\" . | base64\nprintf '%s\\n' ");
    } else {
        append_str(
            &mut v,
            "\nif [ -d \"$source_path\" ]; then\n  printf '%s\\n' \"$source_path is a directory; use -r to copy directories\" >&2\n  exit 1\nfi\nprintf '%s\\n' ",
        );
        append_str(&mut v, begin.as_str());
        append_str(&mut v, "\nbase64 < \"$source_path\"\nprintf '%s\\n' ");
    }
    append_str(&mut v, end.as_str());
    append_str(&mut v, "\n");
    string_of(&v)
}

/// `s` without white space.
pub open spec fn without_ws(s: Seq<char>) -> Seq<char> {
    s.filter(|c: char| !is_ws(c))
}

/// The payload of a download's output: the text between the first begin
/// mark and the first end mark, white space removed. There is none when a
/// mark is missing or the end mark does not come after the begin mark.
pub open spec fn download_payload(stdout: Seq<char>, payload: Option<Seq<char>>) -> bool {
    let b = DOWNLOAD_BEGIN_MARK@;
    let e = DOWNLOAD_END_MARK@;
    match payload {
        Some(p) => exists|i: int, j: int|
            is_first_occurrence(stdout, b, i) && is_first_occurrence(stdout, e, j) && i + b.len()
                <= j && p == without_ws(stdout.subrange(i + b.len(), j)),
        None => forall|i: int, j: int|
            is_first_occurrence(stdout, b, i) && is_first_occurrence(stdout, e, j) ==> j < i
                + b.len(),
    }
}

proof fn lemma_only_occurrence_at(s: Seq<char>, p: Seq<char>, k: int)
    requires
        0 <= k,
        p.len() > 0,
        k + p.len() <= s.len(),
        s.subrange(k, k + p.len()) == p,
        !contains(s.take(k + p.len() - 1), p),
    ensures
        is_first_occurrence(s, p, k),
        forall|j: int| #[trigger] is_first_occurrence(s, p, j) ==> j == k,
{
    assert(occurs_at(s, p, k));
    assert forall|j: int| 0 <= j < k implies !occurs_at(s, p, j) by {
        if occurs_at(s, p, j) {
            assert(s.take(k + p.len() - 1).subrange(j, j + p.len()) =~= s.subrange(j, j + p.len()));
            assert(occurs_at(s.take(k + p.len() - 1), p, j));
        }
    }
}

/// A download gives back the file's bytes: when the output holds the begin
/// mark, then the file's base64 text in any layout of lines, then the end
/// mark, and neither mark shows up earlier, the payload cut out of it is
/// that text, and the only bytes it decodes to are the file's.
pub proof fn lemma_download_reads_back(
    before: Seq<char>,
    body: Seq<char>,
    after: Seq<char>,
    bytes: Seq<u8>,
    payload: Option<Seq<char>>,
)
    requires
        !contains(before + DOWNLOAD_BEGIN_MARK@.drop_last(), DOWNLOAD_BEGIN_MARK@),
        !contains(
            before + DOWNLOAD_BEGIN_MARK@ + body + DOWNLOAD_END_MARK@.drop_last(),
            DOWNLOAD_END_MARK@,
        ),
        without_ws(body) == b64_encoded(bytes),
        download_payload(before + DOWNLOAD_BEGIN_MARK@ + body + DOWNLOAD_END_MARK@ + after, payload),
    ensures
        payload == Some(b64_encoded(bytes)),
        forall|x: Seq<u8>| b64_encoded(x) == b64_encoded(bytes) ==> x == bytes,
{
    reveal_strlit("__GJTD_DOWNLOAD_BEGIN__");
    reveal_strlit("__GJTD_DOWNLOAD_END__");
    let b = DOWNLOAD_BEGIN_MARK@;
    let e = DOWNLOAD_END_MARK@;
    let s = before + b + body + e + after;
    let i = before.len() as int;
    let j = (before.len() + b.len() + body.len()) as int;
    assert(s.subrange(i, i + b.len()) =~= b);
    assert(s.take(i + b.len() - 1) =~= before + b.drop_last());
    lemma_only_occurrence_at(s, b, i);
    assert(s.subrange(j, j + e.len()) =~= e);
    assert(s.take(j + e.len() - 1) =~= before + b + body + e.drop_last());
    lemma_only_occurrence_at(s, e, j);
    assert(s.subrange(i + b.len(), j) =~= body);
    match payload {
        Some(p) => {
            let (x, y) = choose|x: int, y: int|
                is_first_occurrence(s, b, x) && is_first_occurrence(s, e, y) && x + b.len() <= y
                    && p == without_ws(s.subrange(x + b.len(), y));
            assert(x == i && y == j);
        },
        None => {
            assert(is_first_occurrence(s, b, i) && is_first_occurrence(s, e, j));
        },
    }
    assert forall|x: Seq<u8>| b64_encoded(x) == b64_encoded(bytes) implies x == bytes by {
        crate::foreign::lemma_b64_injective(x, bytes);
    }
}

fn remove_ws(v: &Vec<char>) -> (r: Vec<char>)
    ensures
        r@ == without_ws(v@),
{
    let mut r: Vec<char> = Vec::new();
    let mut i: usize = 0;
    while i < v.len()
        invariant
            i <= v.len(),
            r@ == without_ws(v@.take(i as int)),
        decreases v.len() - i,
    {
        proof {
            reveal(Seq::filter);
            assert(v@.take(i + 1).drop_last() == v@.take(i as int));
            assert(v@.take(i + 1).last() == v@[i as int]);
        }
        if !is_ws_char(v[i]) {
            r.push(v[i]);
        }
        i += 1;
    }
    assert(v@.take(v.len() as int) == v@);
    r
}

/// Cuts the payload out of a download's output. An end mark that starts
/// before the begin mark is over counts as a missing payload.
pub fn extract_download_payload(stdout: &str) -> (r: Option<String>)
    ensures
        download_payload(stdout@, opt_view(r)),
{
    let s = chars_of(stdout);
    let b = chars_of(DOWNLOAD_BEGIN_MARK);
    let e = chars_of(DOWNLOAD_END_MARK);
    let i = match find(&s, &b) {
        Some(i) => i,
        None => return None,
    };
    let j = match find(&s, &e) {
        Some(j) => j,
        None => return None,
    };
    if j < i || j - i < b.len() {
        proof {
            assert forall|x: int, y: int|
                is_first_occurrence(s@, b@, x) && is_first_occurrence(s@, e@, y) implies y < x
                + b@.len() by {
                if x < i {
                    assert(!occurs_at(s@, b@, x));
                }
                if i < x {
                    assert(!occurs_at(s@, b@, i as int));
                }
                if y < j {
                    assert(!occurs_at(s@, e@, y));
                }
                if j < y {
                    assert(!occurs_at(s@, e@, j as int));
                }
            }
        }
        return None;
    }
    let body = slice(&s, i + b.len(), j);
    let r = remove_ws(&body);
    proof {
        assert(is_first_occurrence(s@, b@, i as int) && is_first_occurrence(s@, e@, j as int) && i
            + b@.len() <= j && r@ == without_ws(s@.subrange(i + b@.len(), j as int)));
    }
    Some(string_of(&r))
}

} // verus!
