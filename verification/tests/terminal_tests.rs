use gitcode_jupyter_tool::terminal::{
    after_prompt, command_result, prompt_prelude, split_header, timed_out_result,
};

#[test]
fn prompt_setup_ends_with_the_ready_marker() {
    let p = prompt_prelude("__GJTD_PROMPT_READY_ab__");
    let lines: Vec<&str> = p.split('\n').collect();
    assert_eq!(lines[0], "bind 'set enable-bracketed-paste off' 2>/dev/null || true");
    assert_eq!(lines[1], "alias ll='ls -l --color=auto'");
    assert_eq!(lines[2], "export PROMPT_COMMAND=");
    assert_eq!(lines[3], r"export PS1='\[\033[1;36m\]\w\[\033[0m\] \[\033[1;32m\]\$\[\033[0m\] '");
    assert_eq!(lines[4], r"printf '\033[2K\r%s\n' __GJTD_PROMPT_READY_ab__");
    assert_eq!(lines[5], "");
    assert_eq!(after_prompt("\r\n\r\n~ $ "), "~ $ ");
    assert_eq!(after_prompt("x\n"), "x\n");
}

#[test]
fn command_output_ends_at_its_marker() {
    assert_eq!(
        command_result("\x1b[0mhi\r\n__R__:3\n", "__R__:", false),
        Some((3, "hi\n".to_string()))
    );
    assert_eq!(
        command_result("\x1b[0mhi\r\n__R__:3\n", "__R__:", true),
        Some((3, "\x1b[0mhi\r\n".to_string()))
    );
    assert_eq!(command_result("still running", "__R__:", false), None);
    assert_eq!(timed_out_result("a\rb", false), (124, "ab".to_string()));
    assert_eq!(timed_out_result("a\rb", true), (124, "a\rb".to_string()));
}

#[test]
fn stream_handshakes_end_at_the_first_newline() {
    assert_eq!(
        split_header(&b"{\"rows\":24}\nls\n".to_vec()),
        Some((b"{\"rows\":24}".to_vec(), b"ls\n".to_vec()))
    );
    assert_eq!(split_header(&b"\n".to_vec()), Some((Vec::new(), Vec::new())));
    assert_eq!(split_header(&b"partial".to_vec()), None);
}

#[test]
fn handshake_reads_back() {
    let header = b"{\"rows\":24,\"cols\":80}".to_vec();
    let mut data = header.clone();
    data.push(b'\n');
    data.extend_from_slice(b"ls\n");
    assert_eq!(split_header(&data), Some((header, b"ls\n".to_vec())));
}
