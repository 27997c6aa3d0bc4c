//! The daemon's HTTP API: which action a request asks for, with the defaults
//! of its fields filled in, and how a client reads the replies.
//!
//! Timeouts are in milliseconds.
use crate::config::str_eq;
use crate::shell::{rows_cols, terminal_rows_cols};
use crate::text::{append, append_str, chars_of, decimal, decimal_chars, string_of, trim, trim_chars};
use vstd::prelude::*;

verus! {

/// The timeout of a remote command, upload or download when the request
/// names none.
pub const DEFAULT_TIMEOUT_MS: u64 = 180000;

/// How long a terminal read waits when the request names no timeout.
pub const DEFAULT_READ_TIMEOUT_MS: u64 = 1000;

/// The file mode of an upload when the request names none (`0o644`).
pub const DEFAULT_UPLOAD_MODE: u64 = 420;

/// How many bytes of an upload go to the terminal at once by default.
pub const DEFAULT_CHUNK_SIZE: u64 = 262144;

/// The fields of a request body that the daemon reads; a field that is
/// missing or of another JSON type is `None`. `timeout_ms` is the body's
/// `timeout` (seconds) in milliseconds.
pub struct RequestBody {
    pub background: Option<bool>,
    pub id: Option<String>,
    pub command: Option<String>,
    pub timeout_ms: Option<u64>,
    pub rows: Option<u64>,
    pub cols: Option<u64>,
    pub raw: Option<bool>,
    pub no_prelude: Option<bool>,
    pub ensure: Option<bool>,
    pub destination: Option<String>,
    pub content_b64: Option<String>,
    pub mode: Option<u64>,
    pub is_archive: Option<bool>,
    pub chunk_size: Option<u64>,
    pub source: Option<String>,
    pub recursive: Option<bool>,
    pub data: Option<String>,
}

/// What a request asks the daemon to do. `background` asks for a job to be
/// submitted instead of an answer to wait for.
pub enum Action {
    Shutdown,
    JobQuery { id: String },
    Ensure { background: bool },
    Run {
        command: String,
        timeout_ms: u64,
        rows: u16,
        cols: u16,
        raw: bool,
        no_prelude: bool,
        ensure: bool,
        background: bool,
    },
    Upload {
        destination: String,
        content_b64: String,
        mode: u32,
        is_archive: bool,
        timeout_ms: u64,
        chunk_size: usize,
        background: bool,
    },
    Download { source: String, recursive: bool, timeout_ms: u64, background: bool },
    TerminalStart { rows: u16, cols: u16 },
    TerminalInput { id: String, data: String },
    TerminalRead { id: String, timeout_ms: u64 },
    TerminalResize { id: String, rows: u16, cols: u16 },
    TerminalClose { id: String },
    Unknown { error: String },
}

pub open spec fn text_or_empty(o: Option<String>) -> Seq<char> {
    match o {
        Some(s) => s@,
        None => Seq::empty(),
    }
}

pub open spec fn flag_or(o: Option<bool>, d: bool) -> bool {
    match o {
        Some(b) => b,
        None => d,
    }
}

pub open spec fn number_or(o: Option<u64>, d: u64) -> u64 {
    match o {
        Some(n) => n,
        None => d,
    }
}

/// The message for a path the daemon does not serve.
pub open spec fn unknown_endpoint(path: Seq<char>) -> Seq<char> {
    "unknown endpoint: "@ + path
}

/// An `Action` with its strings as character sequences.
pub enum ActionModel {
    Shutdown,
    JobQuery { id: Seq<char> },
    Ensure { background: bool },
    Run {
        command: Seq<char>,
        timeout_ms: u64,
        rows: u16,
        cols: u16,
        raw: bool,
        no_prelude: bool,
        ensure: bool,
        background: bool,
    },
    Upload {
        destination: Seq<char>,
        content_b64: Seq<char>,
        mode: u32,
        is_archive: bool,
        timeout_ms: u64,
        chunk_size: usize,
        background: bool,
    },
    Download { source: Seq<char>, recursive: bool, timeout_ms: u64, background: bool },
    TerminalStart { rows: u16, cols: u16 },
    TerminalInput { id: Seq<char>, data: Seq<char> },
    TerminalRead { id: Seq<char>, timeout_ms: u64 },
    TerminalResize { id: Seq<char>, rows: u16, cols: u16 },
    TerminalClose { id: Seq<char> },
    Unknown { error: Seq<char> },
}

impl View for Action {
    type V = ActionModel;

    open spec fn view(&self) -> ActionModel {
        match self {
            Action::Shutdown => ActionModel::Shutdown,
            Action::JobQuery { id } => ActionModel::JobQuery { id: id@ },
            Action::Ensure { background } => ActionModel::Ensure { background: *background },
            Action::Run { command, timeout_ms, rows, cols, raw, no_prelude, ensure, background } =>
                ActionModel::Run {
                command: command@,
                timeout_ms: *timeout_ms,
                rows: *rows,
                cols: *cols,
                raw: *raw,
                no_prelude: *no_prelude,
                ensure: *ensure,
                background: *background,
            },
            Action::Upload {
                destination,
                content_b64,
                mode,
                is_archive,
                timeout_ms,
                chunk_size,
                background,
            } => ActionModel::Upload {
                destination: destination@,
                content_b64: content_b64@,
                mode: *mode,
                is_archive: *is_archive,
                timeout_ms: *timeout_ms,
                chunk_size: *chunk_size,
                background: *background,
            },
            Action::Download { source, recursive, timeout_ms, background } =>
                ActionModel::Download {
                source: source@,
                recursive: *recursive,
                timeout_ms: *timeout_ms,
                background: *background,
            },
            Action::TerminalStart { rows, cols } => ActionModel::TerminalStart {
                rows: *rows,
                cols: *cols,
            },
            Action::TerminalInput { id, data } => ActionModel::TerminalInput {
                id: id@,
                data: data@,
            },
            Action::TerminalRead { id, timeout_ms } => ActionModel::TerminalRead {
                id: id@,
                timeout_ms: *timeout_ms,
            },
            Action::TerminalResize { id, rows, cols } => ActionModel::TerminalResize {
                id: id@,
                rows: *rows,
                cols: *cols,
            },
            Action::TerminalClose { id } => ActionModel::TerminalClose { id: id@ },
            Action::Unknown { error } => ActionModel::Unknown { error: error@ },
        }
    }
}

/// The action that a POST to `path` with body `b` asks for.
pub open spec fn action_for(path: Seq<char>, b: RequestBody) -> ActionModel {
    let background = flag_or(b.background, false);
    let timeout = number_or(b.timeout_ms, DEFAULT_TIMEOUT_MS);
    let size = rows_cols(b.rows, b.cols);
    if path == "/v1/shutdown"@ {
        ActionModel::Shutdown
    } else if path == "/v1/job"@ {
        ActionModel::JobQuery { id: text_or_empty(b.id) }
    } else if path == "/v1/ensure"@ {
        ActionModel::Ensure { background }
    } else if path == "/v1/run"@ {
        ActionModel::Run {
            command: text_or_empty(b.command),
            timeout_ms: timeout,
            rows: size.0,
            cols: size.1,
            raw: flag_or(b.raw, false),
            no_prelude: flag_or(b.no_prelude, false),
            ensure: flag_or(b.ensure, true),
            background,
        }
    } else if path == "/v1/upload"@ {
        ActionModel::Upload {
            destination: text_or_empty(b.destination),
            content_b64: text_or_empty(b.content_b64),
            mode: number_or(b.mode, DEFAULT_UPLOAD_MODE) as u32,
            is_archive: flag_or(b.is_archive, false),
            timeout_ms: timeout,
            chunk_size: number_or(b.chunk_size, DEFAULT_CHUNK_SIZE) as usize,
            background,
        }
    } else if path == "/v1/download"@ {
        ActionModel::Download {
            source: text_or_empty(b.source),
            recursive: flag_or(b.recursive, false),
            timeout_ms: timeout,
            background,
        }
    } else if path == "/v1/terminal/start"@ {
        ActionModel::TerminalStart { rows: size.0, cols: size.1 }
    } else if path == "/v1/terminal/input"@ {
        ActionModel::TerminalInput { id: text_or_empty(b.id), data: text_or_empty(b.data) }
    } else if path == "/v1/terminal/read"@ {
        ActionModel::TerminalRead {
            id: text_or_empty(b.id),
            timeout_ms: number_or(b.timeout_ms, DEFAULT_READ_TIMEOUT_MS),
        }
    } else if path == "/v1/terminal/resize"@ {
        ActionModel::TerminalResize { id: text_or_empty(b.id), rows: size.0, cols: size.1 }
    } else if path == "/v1/terminal/close"@ {
        ActionModel::TerminalClose { id: text_or_empty(b.id) }
    } else {
        ActionModel::Unknown { error: unknown_endpoint(path) }
    }
}

/// An upload request carries its fields through: the archive flag is the
/// body's (false only when absent), and so are the destination, the
/// payload, the mode (`0o644` when absent), the timeout (180 s when absent),
/// the chunk size (256 KiB when absent) and the background flag.
pub proof fn lemma_upload_request_fields(b: RequestBody)
    ensures
        action_for("/v1/upload"@, b) matches ActionModel::Upload {
            destination,
            content_b64,
            mode,
            is_archive,
            timeout_ms,
            chunk_size,
            background,
        } && (is_archive <==> b.is_archive == Some(true)) && (background <==> b.background == Some(
            true,
        )) && (b.destination matches Some(d) ==> destination == d@) && (b.destination is None
            ==> destination.len() == 0) && (b.content_b64 matches Some(c) ==> content_b64 == c@)
            && (b.mode is None ==> mode == 0o644) && (b.mode matches Some(m) ==> mode == m as u32)
            && (b.timeout_ms is None ==> timeout_ms == 180000) && (b.timeout_ms matches Some(t)
            ==> timeout_ms == t) && (b.chunk_size is None ==> chunk_size == 262144),
{
    reveal_strlit("/v1/upload");
    reveal_strlit("/v1/shutdown");
    reveal_strlit("/v1/job");
    reveal_strlit("/v1/ensure");
    reveal_strlit("/v1/run");
    assert("/v1/upload"@.len() != "/v1/shutdown"@.len());
    assert("/v1/upload"@.len() != "/v1/job"@.len());
    assert("/v1/upload"@[4] != "/v1/ensure"@[4]);
    assert("/v1/upload"@ != "/v1/ensure"@);
    assert("/v1/upload"@.len() != "/v1/run"@.len());
}

/// A run request carries its flags through: raw output and no prelude only
/// when the body asks for them, a notebook check unless the body turns it
/// off, and the command as given.
pub proof fn lemma_run_request_fields(b: RequestBody)
    ensures
        action_for("/v1/run"@, b) matches ActionModel::Run {
            command,
            raw,
            no_prelude,
            ensure,
            background,
            ..
        } && (raw <==> b.raw == Some(true)) && (no_prelude <==> b.no_prelude == Some(true)) && (
        ensure <==> b.ensure != Some(false)) && (background <==> b.background == Some(true)) && (
        b.command matches Some(c) ==> command == c@),
{
    reveal_strlit("/v1/run");
    reveal_strlit("/v1/shutdown");
    reveal_strlit("/v1/job");
    reveal_strlit("/v1/ensure");
    assert("/v1/run"@.len() != "/v1/shutdown"@.len());
    assert("/v1/run"@[4] != "/v1/job"@[4]);
    assert("/v1/run"@ != "/v1/job"@);
    assert("/v1/run"@.len() != "/v1/ensure"@.len());
}

/// A download request is recursive only when the body says so, and reads
/// the source it names.
pub proof fn lemma_download_request_fields(b: RequestBody)
    ensures
        action_for("/v1/download"@, b) matches ActionModel::Download { source, recursive, .. } && (
        recursive <==> b.recursive == Some(true)) && (b.source matches Some(x) ==> source == x@),
{
    reveal_strlit("/v1/download");
    reveal_strlit("/v1/shutdown");
    reveal_strlit("/v1/job");
    reveal_strlit("/v1/ensure");
    reveal_strlit("/v1/run");
    reveal_strlit("/v1/upload");
    assert("/v1/download"@[4] != "/v1/shutdown"@[4]);
    assert("/v1/download"@ != "/v1/shutdown"@);
    assert("/v1/download"@.len() != "/v1/job"@.len());
    assert("/v1/download"@.len() != "/v1/ensure"@.len());
    assert("/v1/download"@.len() != "/v1/run"@.len());
    assert("/v1/download"@.len() != "/v1/upload"@.len());
}

fn text_or_new(o: &Option<String>) -> (r: String)
    ensures
        r@ == text_or_empty(*o),
{
    match o {
        Some(s) => s.clone(),
        None => String::new(),
    }
}

fn flag(o: Option<bool>, d: bool) -> (r: bool)
    ensures
        r == flag_or(o, d),
{
    match o {
        Some(b) => b,
        None => d,
    }
}

fn number(o: Option<u64>, d: u64) -> (r: u64)
    ensures
        r == number_or(o, d),
{
    match o {
        Some(n) => n,
        None => d,
    }
}

/// Reads the action that a POST to `path` with body `body` asks for. A
/// field that is missing takes its default: no background job, a timeout of
/// 180 s (1 s for a terminal read), 24 rows and 120 columns, no raw output,
/// the prelude, an ensured notebook, mode `0o644`, chunks of 262144 bytes.
pub fn dispatch(path: &str, body: &RequestBody) -> (r: Action)
    ensures
        r@ == action_for(path@, *body),
{
    proof {
        reveal_strlit("/v1/shutdown");
        reveal_strlit("/v1/job");
        reveal_strlit("/v1/ensure");
        reveal_strlit("/v1/run");
        reveal_strlit("/v1/upload");
        reveal_strlit("/v1/download");
        reveal_strlit("/v1/terminal/start");
        reveal_strlit("/v1/terminal/input");
        reveal_strlit("/v1/terminal/read");
        reveal_strlit("/v1/terminal/resize");
        reveal_strlit("/v1/terminal/close");
    }
    let background = flag(body.background, false);
    let timeout_ms = number(body.timeout_ms, DEFAULT_TIMEOUT_MS);
    if str_eq(path, "/v1/shutdown") {
        Action::Shutdown
    } else if str_eq(path, "/v1/job") {
        Action::JobQuery { id: text_or_new(&body.id) }
    } else if str_eq(path, "/v1/ensure") {
        Action::Ensure { background }
    } else if str_eq(path, "/v1/run") {
        let (rows, cols) = terminal_rows_cols(body.rows, body.cols);
        Action::Run {
            command: text_or_new(&body.command),
            timeout_ms,
            rows,
            cols,
            raw: flag(body.raw, false),
            no_prelude: flag(body.no_prelude, false),
            ensure: flag(body.ensure, true),
            background,
        }
    } else if str_eq(path, "/v1/upload") {
        let mode = number(body.mode, DEFAULT_UPLOAD_MODE);
        let chunk = number(body.chunk_size, DEFAULT_CHUNK_SIZE);
        Action::Upload {
            destination: text_or_new(&body.destination),
            content_b64: text_or_new(&body.content_b64),
            mode: mode as u32,
            is_archive: flag(body.is_archive, false),
            timeout_ms,
            chunk_size: chunk as usize,
            background,
        }
    } else if str_eq(path, "/v1/download") {
        Action::Download {
            source: text_or_new(&body.source),
            recursive: flag(body.recursive, false),
            timeout_ms,
            background,
        }
    } else if str_eq(path, "/v1/terminal/start") {
        let (rows, cols) = terminal_rows_cols(body.rows, body.cols);
        Action::TerminalStart { rows, cols }
    } else if str_eq(path, "/v1/terminal/input") {
        Action::TerminalInput { id: text_or_new(&body.id), data: text_or_new(&body.data) }
    } else if str_eq(path, "/v1/terminal/read") {
        Action::TerminalRead {
            id: text_or_new(&body.id),
            timeout_ms: number(body.timeout_ms, DEFAULT_READ_TIMEOUT_MS),
        }
    } else if str_eq(path, "/v1/terminal/resize") {
        let (rows, cols) = terminal_rows_cols(body.rows, body.cols);
        Action::TerminalResize { id: text_or_new(&body.id), rows, cols }
    } else if str_eq(path, "/v1/terminal/close") {
        Action::TerminalClose { id: text_or_new(&body.id) }
    } else {
        Action::Unknown { error: unknown_endpoint_message(path) }
    }
}

/// `unknown endpoint: <path>`.
pub fn unknown_endpoint_message(path: &str) -> (r: String)
    ensures
        r@ == unknown_endpoint(path@),
{
    let mut v = chars_of("unknown endpoint: ");
    append_str(&mut v, path);
    string_of(&v)
}


// ---------------------------------------------------------------------------
// The HTTP front
// ---------------------------------------------------------------------------

/// The methods the daemon tells apart.
#[derive(PartialEq, Eq, Structural, Clone, Copy, Debug)]
pub enum HttpMethod {
    Get,
    Post,
    Other,
}

/// How the daemon answers a request, before it reads the body.
pub enum Route {
    /// The health report.
    Health,
    /// A call: the body names what to do (see `dispatch`).
    Call,
    /// Nothing is served here; the reply carries this error.
    Unknown { error: String },
}

/// A GET of `/` or `/v1/health` is a health query, any POST is a call, and
/// anything else is answered with `unknown endpoint: <path>`.
pub fn route(method: HttpMethod, path: &str) -> (r: Route)
    ensures
        (method == HttpMethod::Get && (path@ == "/"@ || path@ == "/v1/health"@)) ==> r is Health,
        method == HttpMethod::Post ==> r is Call,
        !(method == HttpMethod::Get && (path@ == "/"@ || path@ == "/v1/health"@))
            && method != HttpMethod::Post ==> (r matches Route::Unknown { error } && error@
            == unknown_endpoint(path@)),
{
    match method {
        HttpMethod::Get => {
            if str_eq(path, "/") || str_eq(path, "/v1/health") {
                Route::Health
            } else {
                Route::Unknown { error: unknown_endpoint_message(path) }
            }
        },
        HttpMethod::Post => Route::Call,
        HttpMethod::Other => Route::Unknown { error: unknown_endpoint_message(path) },
    }
}

/// A body of white space only counts as the empty object.
pub fn body_is_empty(text: &str) -> (r: bool)
    ensures
        r == (trim(text@).len() == 0),
{
    let v = chars_of(text);
    trim_chars(&v).len() == 0
}

/// `tcp://<host>:<port>`, the stream address in the health report.
pub fn stream_url_text(host: &str, port: u16) -> (r: String)
    ensures
        r@ == "tcp://"@ + host@ + ":"@ + decimal(port as nat),
{
    let mut v = chars_of("tcp://");
    append_str(&mut v, host);
    append_str(&mut v, ":");
    append(&mut v, &decimal_chars(port as u64));
    string_of(&v)
}

// ---------------------------------------------------------------------------
// Clients of the API
// ---------------------------------------------------------------------------

/// What a client does after one query of a background job.
pub enum PollStep {
    /// The query itself failed: give up with this error.
    QueryFailed { error: String },
    /// The job succeeded: its result is the answer.
    Succeeded,
    /// The job failed with this error.
    Failed { error: String },
    /// The job has not finished: ask again.
    Pending,
}

pub open spec fn text_or(o: Option<&str>, d: Seq<char>) -> Seq<char> {
    match o {
        Some(s) => s@,
        None => d,
    }
}

pub open spec fn is_text(o: Option<&str>, t: Seq<char>) -> bool {
    o matches Some(s) && s@ == t
}

fn text_or_default(o: Option<&str>, d: &str) -> (r: String)
    ensures
        r@ == text_or(o, d@),
{
    match o {
        Some(s) => s.to_owned(),
        None => d.to_owned(),
    }
}

/// Reads one reply to a job query: a failed query ends the wait with its
/// error (or `gjtd job query failed`); a job that `succeeded` or `failed`
/// ends it (a failure with the job's error or `gjtd job failed`); any other
/// status means the job is still going.
pub fn poll_step(
    reply_ok: bool,
    reply_error: Option<&str>,
    status: Option<&str>,
    job_error: Option<&str>,
) -> (r: PollStep)
    ensures
        !reply_ok ==> (r matches PollStep::QueryFailed { error } && error@ == text_or(
            reply_error,
            "gjtd job query failed"@,
        )),
        reply_ok && is_text(status, "succeeded"@) ==> r is Succeeded,
        reply_ok && is_text(status, "failed"@) ==> (r matches PollStep::Failed { error } && error@
            == text_or(job_error, "gjtd job failed"@)),
        reply_ok && !is_text(status, "succeeded"@) && !is_text(status, "failed"@) ==> r is Pending,
{
    proof {
        reveal_strlit("succeeded");
        reveal_strlit("failed");
        assert("failed"@.len() != "succeeded"@.len());
    }
    if !reply_ok {
        return PollStep::QueryFailed { error: text_or_default(reply_error, "gjtd job query failed") };
    }
    match status {
        Some(s) => {
            if str_eq(s, "succeeded") {
                PollStep::Succeeded
            } else if str_eq(s, "failed") {
                PollStep::Failed { error: text_or_default(job_error, "gjtd job failed") }
            } else {
                PollStep::Pending
            }
        },
        None => PollStep::Pending,
    }
}

/// What a client does about the daemon before a call.
#[derive(PartialEq, Eq, Structural, Clone, Copy, Debug)]
pub enum DaemonStep {
    /// It answers: go on.
    Running,
    /// It does not answer and may be started: start it.
    Start,
}

/// `gjtd is not running at <api_url>; start it with gjtctl start`.
pub open spec fn not_running_message(api_url: Seq<char>) -> Seq<char> {
    "gjtd is not running at "@ + api_url + "; start it with gjtctl start"@
}

/// A daemon that answered its health query is used; one that did not is
/// started where `auto_start` allows, and is an error otherwise.
pub fn ensure_daemon(api_url: &str, healthy: bool, auto_start: bool) -> (r: Result<
    DaemonStep,
    String,
>)
    ensures
        healthy ==> r == Ok::<DaemonStep, String>(DaemonStep::Running),
        !healthy && auto_start ==> r == Ok::<DaemonStep, String>(DaemonStep::Start),
        !healthy && !auto_start ==> (r matches Err(e) && e@ == not_running_message(api_url@)),
{
    if healthy {
        Ok(DaemonStep::Running)
    } else if auto_start {
        Ok(DaemonStep::Start)
    } else {
        let mut v = chars_of("gjtd is not running at ");
        append_str(&mut v, api_url);
        append_str(&mut v, "; start it with gjtctl start");
        Err(string_of(&v))
    }
}

/// A field of a JSON reply, as far as a client reads it.
pub enum Field {
    Missing,
    Text(String),
    /// Present, but not a string.
    Other,
}

/// The message a client shows for a reply that is not ok: the remote
/// output when there is a `stdout` field, else the `error` field, else the
/// default; a field that is there but is not a string gives the default.
pub open spec fn failure_text(stdout: Field, error: Field, default: Seq<char>) -> Seq<char> {
    match stdout {
        Field::Text(s) => s@,
        Field::Other => default,
        Field::Missing => match error {
            Field::Text(e) => e@,
            _ => default,
        },
    }
}

pub fn failure_message(stdout: &Field, error: &Field, default: &str) -> (r: String)
    ensures
        r@ == failure_text(*stdout, *error, default@),
{
    match stdout {
        Field::Text(s) => s.clone(),
        Field::Other => default.to_owned(),
        Field::Missing => match error {
            Field::Text(e) => e.clone(),
            _ => default.to_owned(),
        },
    }
}

/// The exit status of a remote command: the reply's `exit_code` when there
/// is one (cut to 32 bits), else 0 for an ok reply and 1 for another.
pub fn exit_status(exit_code: Option<i64>, ok: bool) -> (r: i32)
    ensures
        exit_code matches Some(c) ==> r == c as i32,
        exit_code is None ==> r == (if ok {
            0i32
        } else {
            1i32
        }),
{
    match exit_code {
        Some(c) => c as i32,
        None => if ok {
            0
        } else {
            1
        },
    }
}

} // verus!
