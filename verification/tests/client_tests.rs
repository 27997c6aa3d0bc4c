use gitcode_jupyter_tool::client::{
    cdp_base_url, daemon_launch_args, is_timeout_error, new_tab_url, parse_tcp_url, AddressError,
};

#[test]
fn stream_addresses_are_read() {
    assert_eq!(parse_tcp_url("tcp://127.0.0.1:61001").ok(), Some(("127.0.0.1".to_string(), 61001)));
    assert_eq!(parse_tcp_url("tcp://example.org").ok(), Some(("example.org".to_string(), 18788)));
    assert_eq!(parse_tcp_url("host:9000").ok(), Some(("host".to_string(), 9000)));
    assert_eq!(parse_tcp_url("9000").ok(), Some(("127.0.0.1".to_string(), 9000)));
    assert_eq!(parse_tcp_url("a:b:+80").ok(), Some(("a:b".to_string(), 80)));
    assert!(matches!(parse_tcp_url("host:99999"), Err(AddressError::BadPort)));
    assert!(matches!(parse_tcp_url("host:"), Err(AddressError::BadPort)));
    match parse_tcp_url("http://h:1") {
        Err(AddressError::UnsupportedScheme(u)) => assert_eq!(u, "http://h:1"),
        _ => panic!(),
    }
    assert!(matches!(parse_tcp_url("tcp://[::1"), Err(AddressError::BadUrl)));
}

#[test]
fn daemons_start_with_the_clients_addresses() {
    let args = daemon_launch_args("http://127.0.0.1:61000", "tcp://127.0.0.1:61001", true).ok().unwrap();
    assert_eq!(
        args,
        vec![
            "--listen-host", "127.0.0.1", "--listen-port", "61000", "--stream-host", "127.0.0.1",
            "--stream-port", "61001", "--headless",
        ]
    );
    let visible = daemon_launch_args("http://localhost", "7000", false).ok().unwrap();
    assert_eq!(visible[1], "localhost");
    assert_eq!(visible[3], "18787");
    assert_eq!(visible[5], "127.0.0.1");
    assert_eq!(visible[7], "7000");
    assert_eq!(visible[8], "--visible");
    assert!(matches!(daemon_launch_args("::", "7000", true), Err(AddressError::BadUrl)));
    assert!(daemon_launch_args("http://h", "ftp://x", true).is_err());
}

#[test]
fn devtools_endpoints() {
    assert_eq!(cdp_base_url("http://127.0.0.1:61800/json").ok(), Some("http://127.0.0.1:61800".to_string()));
    assert_eq!(cdp_base_url("http://localhost/json/list").ok(), Some("http://localhost".to_string()));
    assert!(matches!(cdp_base_url("nope"), Err(AddressError::BadUrl)));
    assert!(matches!(cdp_base_url("data:text/plain,hi"), Err(AddressError::NoHost)));
    assert_eq!(
        new_tab_url("http://127.0.0.1:9222/json", "https://gitcode.com/a b").ok(),
        Some("http://127.0.0.1:9222/json/new?https%3A%2F%2Fgitcode.com%2Fa%20b".to_string())
    );
    assert!(is_timeout_error("CDP call timed out: Page.enable"));
    assert!(is_timeout_error("read timeout"));
    assert!(!is_timeout_error("connection refused"));
}
