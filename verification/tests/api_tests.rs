use gitcode_jupyter_tool::api::{
    body_is_empty, dispatch, ensure_daemon, exit_status, failure_message, poll_step, route,
    stream_url_text, unknown_endpoint_message, Action, DaemonStep, Field, HttpMethod, PollStep,
    RequestBody, Route,
};

fn empty_body() -> RequestBody {
    RequestBody {
        background: None,
        id: None,
        command: None,
        timeout_ms: None,
        rows: None,
        cols: None,
        raw: None,
        no_prelude: None,
        ensure: None,
        destination: None,
        content_b64: None,
        mode: None,
        is_archive: None,
        chunk_size: None,
        source: None,
        recursive: None,
        data: None,
    }
}

#[test]
fn run_requests_get_their_defaults() {
    match dispatch("/v1/run", &empty_body()) {
        Action::Run { command, timeout_ms, rows, cols, raw, no_prelude, ensure, background } => {
            assert_eq!(command, "");
            assert_eq!(timeout_ms, 180_000);
            assert_eq!((rows, cols), (24, 120));
            assert!(!raw && !no_prelude && ensure && !background);
        }
        _ => panic!("not a run"),
    }
    let mut b = empty_body();
    b.command = Some("ls".to_string());
    b.background = Some(true);
    b.ensure = Some(false);
    b.rows = Some(0);
    b.timeout_ms = Some(5000);
    match dispatch("/v1/run", &b) {
        Action::Run { command, timeout_ms, rows, ensure, background, .. } => {
            assert_eq!(command, "ls");
            assert_eq!(timeout_ms, 5000);
            assert_eq!(rows, 1);
            assert!(!ensure && background);
        }
        _ => panic!("not a run"),
    }
}

#[test]
fn upload_and_download_requests_get_their_defaults() {
    match dispatch("/v1/upload", &empty_body()) {
        Action::Upload { destination, mode, is_archive, chunk_size, timeout_ms, .. } => {
            assert_eq!(destination, "");
            assert_eq!(mode, 0o644);
            assert!(!is_archive);
            assert_eq!(chunk_size, 262_144);
            assert_eq!(timeout_ms, 180_000);
        }
        _ => panic!("not an upload"),
    }
    let mut b = empty_body();
    b.mode = Some(0o100755 + (1u64 << 32));
    match dispatch("/v1/upload", &b) {
        Action::Upload { mode, .. } => assert_eq!(mode, 0o100755),
        _ => panic!("not an upload"),
    }
    b.source = Some("x".to_string());
    b.recursive = Some(true);
    match dispatch("/v1/download", &b) {
        Action::Download { source, recursive, .. } => {
            assert_eq!(source, "x");
            assert!(recursive);
        }
        _ => panic!("not a download"),
    }
}

#[test]
fn terminal_and_control_requests_are_recognised() {
    assert!(matches!(dispatch("/v1/shutdown", &empty_body()), Action::Shutdown));
    assert!(matches!(dispatch("/v1/ensure", &empty_body()), Action::Ensure { background: false }));
    match dispatch("/v1/terminal/read", &empty_body()) {
        Action::TerminalRead { id, timeout_ms } => {
            assert_eq!(id, "");
            assert_eq!(timeout_ms, 1000);
        }
        _ => panic!("not a read"),
    }
    let mut b = empty_body();
    b.id = Some("t1".to_string());
    b.data = Some("ls\n".to_string());
    match dispatch("/v1/terminal/input", &b) {
        Action::TerminalInput { id, data } => assert_eq!((id.as_str(), data.as_str()), ("t1", "ls\n")),
        _ => panic!("not input"),
    }
    assert!(matches!(dispatch("/v1/terminal/start", &b), Action::TerminalStart { rows: 24, cols: 120 }));
    assert!(matches!(dispatch("/v1/terminal/close", &b), Action::TerminalClose { .. }));
    match dispatch("/v1/nope", &b) {
        Action::Unknown { error } => assert_eq!(error, "unknown endpoint: /v1/nope"),
        _ => panic!("known"),
    }
    assert_eq!(unknown_endpoint_message("/x"), "unknown endpoint: /x");
}

#[test]
fn requests_are_routed_by_method_and_path() {
    assert!(matches!(route(HttpMethod::Get, "/"), Route::Health));
    assert!(matches!(route(HttpMethod::Get, "/v1/health"), Route::Health));
    assert!(matches!(route(HttpMethod::Post, "/v1/health"), Route::Call));
    match route(HttpMethod::Get, "/v1/run") {
        Route::Unknown { error } => assert_eq!(error, "unknown endpoint: /v1/run"),
        _ => panic!("routed"),
    }
    assert!(matches!(route(HttpMethod::Other, "/"), Route::Unknown { .. }));
    assert!(body_is_empty(" \n\t"));
    assert!(!body_is_empty("{}"));
    assert_eq!(stream_url_text("127.0.0.1", 61001), "tcp://127.0.0.1:61001");
}

#[test]
fn job_polls_end_or_wait() {
    match poll_step(false, None, None, None) {
        PollStep::QueryFailed { error } => assert_eq!(error, "gjtd job query failed"),
        _ => panic!(),
    }
    match poll_step(false, Some("unknown job id: x"), None, None) {
        PollStep::QueryFailed { error } => assert_eq!(error, "unknown job id: x"),
        _ => panic!(),
    }
    assert!(matches!(poll_step(true, None, Some("succeeded"), None), PollStep::Succeeded));
    match poll_step(true, None, Some("failed"), None) {
        PollStep::Failed { error } => assert_eq!(error, "gjtd job failed"),
        _ => panic!(),
    }
    match poll_step(true, None, Some("failed"), Some("boom")) {
        PollStep::Failed { error } => assert_eq!(error, "boom"),
        _ => panic!(),
    }
    assert!(matches!(poll_step(true, None, Some("running"), None), PollStep::Pending));
    assert!(matches!(poll_step(true, None, None, None), PollStep::Pending));
}

#[test]
fn clients_start_or_refuse_a_missing_daemon() {
    assert_eq!(ensure_daemon("http://h:1", true, false), Ok(DaemonStep::Running));
    assert_eq!(ensure_daemon("http://h:1", false, true), Ok(DaemonStep::Start));
    assert_eq!(
        ensure_daemon("http://h:1", false, false),
        Err("gjtd is not running at http://h:1; start it with gjtctl start".to_string())
    );
}

#[test]
fn client_messages_and_exit_codes() {
    assert_eq!(
        failure_message(&Field::Text("out".to_string()), &Field::Text("err".to_string()), "d"),
        "out"
    );
    assert_eq!(failure_message(&Field::Missing, &Field::Text("err".to_string()), "d"), "err");
    assert_eq!(failure_message(&Field::Other, &Field::Text("err".to_string()), "d"), "d");
    assert_eq!(failure_message(&Field::Missing, &Field::Missing, "upload failed"), "upload failed");
    assert_eq!(exit_status(Some(3), false), 3);
    assert_eq!(exit_status(Some(1 << 32), false), 0);
    assert_eq!(exit_status(None, true), 0);
    assert_eq!(exit_status(None, false), 1);
}
