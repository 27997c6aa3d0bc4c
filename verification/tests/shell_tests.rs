use gitcode_jupyter_tool::shell::{
    build_c_command, build_script_command, build_stdin_script_command, find_marker,
    quote_remote_path_for_shell, run_wrapper_script, shell_quote, strip_terminal_noise,
    terminal_rows_cols, token_hex, with_remote_cwd,
};

#[test]
fn shell_quote_leaves_safe_words_alone() {
    assert_eq!(shell_quote(""), "''");
    assert_eq!(shell_quote("abc-1.2/x@y%z+=:,"), "abc-1.2/x@y%z+=:,");
    assert_eq!(shell_quote("a b"), "'a b'");
    assert_eq!(shell_quote("it's"), "'it'\"'\"'s'");
}

#[test]
fn remote_paths_keep_their_tilde() {
    assert_eq!(quote_remote_path_for_shell("~"), "~");
    assert_eq!(quote_remote_path_for_shell("~/my dir"), "~/'my dir'");
    assert_eq!(quote_remote_path_for_shell("/tmp/x"), "/tmp/x");
    assert_eq!(quote_remote_path_for_shell("~user"), "'~user'");
}

#[test]
fn terminal_noise_is_removed() {
    assert_eq!(strip_terminal_noise("\x1b[1;32mok\x1b[0m\r\n"), "ok\n");
    assert_eq!(strip_terminal_noise("plain"), "plain");
    assert_eq!(strip_terminal_noise("a\x1b[?2004hb"), "ab");
}

#[test]
fn markers_report_status_and_output() {
    assert_eq!(find_marker("out\n__M__:0\n", "__M__:"), Some((0, "out\n".to_string())));
    assert_eq!(find_marker("x__M__:17rest", "__M__:"), Some((17, "x".to_string())));
    assert_eq!(find_marker("x__M__:", "__M__:"), None);
    assert_eq!(find_marker("nothing", "__M__:"), None);
    assert_eq!(find_marker("__M__:99999999999", "__M__:"), None);
}

#[test]
fn terminal_size_defaults_and_minimums() {
    assert_eq!(terminal_rows_cols(None, None), (24, 120));
    assert_eq!(terminal_rows_cols(Some(0), Some(0)), (1, 1));
    assert_eq!(terminal_rows_cols(Some(50), Some(200)), (50, 200));
}

#[test]
fn tokens_are_lower_case_hex() {
    let t = token_hex(8);
    assert_eq!(t.len(), 16);
    assert!(t.chars().all(|c| c.is_ascii_hexdigit() && !c.is_ascii_uppercase()));
    assert_eq!(token_hex(0), "");
}

#[test]
fn inline_commands_are_quoted() {
    let args = vec!["x y".to_string(), "z".to_string()];
    assert_eq!(build_c_command("echo $1", &args), "bash -c 'echo $1' 'x y' z");
    assert_eq!(with_remote_cwd("ls", "~/w d"), "cd ~/'w d'\nls");
    assert_eq!(
        run_wrapper_script("ls", "__GJTD_RUN_ab__:"),
        "(\nls\n)\n__gjtd_run_status=$?\nprintf '__GJTD_RUN_ab__:%s\\n' \"$__gjtd_run_status\"\n"
    );
}

#[test]
fn stdin_scripts_use_a_fresh_delimiter() {
    let cmd = build_stdin_script_command("echo hi", &vec!["a".to_string()]);
    assert!(cmd.starts_with("bash -s -- a <<'__JUSH_STDIN_"));
    let delim_end = cmd.find("'\n").unwrap();
    let delim = &cmd["bash -s -- a <<'".len()..delim_end];
    assert_eq!(delim.len(), "__JUSH_STDIN_".len() + 24 + 2);
    assert!(cmd.ends_with(&format!("\necho hi{}\n", delim)));
    let plain = build_stdin_script_command("x\n", &Vec::new());
    assert!(plain.starts_with("bash -s <<'"));
}

#[test]
fn script_files_are_copied_then_run() {
    let cmd = build_script_command("#!/bin/sh\necho hi\n", Some("run.sh"), false, &vec!["q".to_string()]);
    let lines: Vec<&str> = cmd.split('\n').collect();
    assert!(lines[0].starts_with("remote_script=/tmp/jush-"));
    assert!(lines[0].ends_with("-run.sh"));
    assert_eq!(lines[1], "cleanup_jush_script() { rm -f \"$remote_script\"; }");
    assert_eq!(lines[2], "trap cleanup_jush_script EXIT");
    assert!(lines[3].starts_with("cat > \"$remote_script\" <<'__JUSH_SCRIPT_"));
    assert_eq!(lines[4], "#!/bin/sh");
    assert_eq!(lines[5], "echo hi");
    assert_eq!(lines[7], "chmod +x \"$remote_script\"");
    assert_eq!(lines[8], "\"$remote_script\" q");
    assert_eq!(lines[9], "");
    let plain = build_script_command("echo\n", None, false, &Vec::new());
    assert!(plain.contains("-script\n"));
    assert!(plain.ends_with("\nbash \"$remote_script\"\n"));
}

/// Reads a word as a POSIX shell does for single- and double-quoted runs
/// and plain characters.
fn read_word(word: &str) -> Option<String> {
    let mut out = String::new();
    let mut mode = ' ';
    for c in word.chars() {
        match (mode, c) {
            (' ', '\'') | (' ', '"') => mode = c,
            ('\'', '\'') | ('"', '"') => mode = ' ',
            ('"', '\\') | ('"', '$') | ('"', '`') => return None,
            (' ', c) if !(c.is_ascii_alphanumeric() || "_@%+=:,./-".contains(c)) => return None,
            (_, c) => out.push(c),
        }
    }
    if mode == ' ' {
        Some(out)
    } else {
        None
    }
}

#[test]
fn quoted_values_read_back() {
    for value in ["", "plain", "a b", "it's", "''", "\"$HOME\"", "x'y'z", "tab\there", "ünï"] {
        assert_eq!(read_word(&shell_quote(value)), Some(value.to_string()), "{value:?}");
    }
}

#[test]
fn wrapped_status_reads_back() {
    for status in [0u8, 1, 42, 255] {
        let collected = format!("line one\nline two\n__GJTD_RUN_ab__:{status}\r\n$ ");
        assert_eq!(find_marker(&collected, "__GJTD_RUN_ab__:"), Some((status as i32, "line one\nline two\n".to_string())));
    }
}
