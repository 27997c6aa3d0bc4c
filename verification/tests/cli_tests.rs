use gitcode_jupyter_tool::cli::{
    cmdline_parts, command_source, daemon_stopped, headless, is_this_jud, pid_list, proc_state,
    status_exit_code, terminal_size, CommandSource,
};

fn strings(v: &[&str]) -> Vec<String> {
    v.iter().map(|s| s.to_string()).collect()
}

#[test]
fn remote_shell_sizes() {
    assert_eq!(terminal_size(30, 100, Some((50, 200))), (30, 100));
    assert_eq!(terminal_size(0, 100, Some((50, 200))), (50, 100));
    assert_eq!(terminal_size(0, 0, Some((0, 0))), (1, 1));
    assert_eq!(terminal_size(0, 0, None), (24, 120));
    assert_eq!(terminal_size(30, 0, None), (30, 120));
}

#[test]
fn remote_shell_chooses_what_to_run() {
    match command_source(Some("echo"), true, true, false, &strings(&["--", "a"])) {
        CommandSource::Inline { command, args } => {
            assert_eq!(command, "echo");
            assert_eq!(args, strings(&["a"]));
        }
        _ => panic!(),
    }
    match command_source(None, true, false, true, &strings(&["a"])) {
        CommandSource::Stdin { args } => assert_eq!(args, strings(&["a"])),
        _ => panic!(),
    }
    match command_source(None, false, true, true, &strings(&["s.sh", "x", "y"])) {
        CommandSource::Script { path, args } => {
            assert_eq!(path, "s.sh");
            assert_eq!(args, strings(&["x", "y"]));
        }
        _ => panic!(),
    }
    assert!(matches!(command_source(None, false, true, false, &Vec::new()), CommandSource::Interactive));
    assert!(matches!(command_source(None, false, false, true, &strings(&["--"])), CommandSource::Interactive));
    match command_source(None, false, false, false, &Vec::new()) {
        CommandSource::Stdin { args } => assert!(args.is_empty()),
        _ => panic!(),
    }
}

#[test]
fn control_tool_reads_proc_files() {
    assert_eq!(proc_state("Name:\tjud\nState:\tS (sleeping)\nPid: 1\n"), "S");
    assert_eq!(proc_state("State:\n"), "?");
    assert_eq!(proc_state("Name: x\n"), "?");
    assert_eq!(proc_state("State:Z\r\nState: R\n"), "Z");
    let parts = cmdline_parts(&b"/usr/bin/jud\0--listen-port\0\061000\0\0".to_vec());
    assert_eq!(parts, vec![b"/usr/bin/jud".to_vec(), b"--listen-port".to_vec(), b"61000".to_vec()]);
    assert!(cmdline_parts(&Vec::new()).is_empty());
}

#[test]
fn control_tool_recognises_and_stops_the_daemon() {
    assert!(is_this_jud("/opt/jud", Some("/opt/jud"), &Vec::new()));
    assert!(is_this_jud("/opt/jud", None, &vec![None, Some("/opt/jud".to_string())]));
    assert!(!is_this_jud("/opt/jud", Some("/bin/sh"), &vec![Some("/opt/other".to_string())]));
    assert!(daemon_stopped(true, true, ""));
    assert!(daemon_stopped(true, true, "Z"));
    assert!(!daemon_stopped(true, true, "S"));
    assert!(!daemon_stopped(false, false, ""));
    assert!(daemon_stopped(true, false, "S"));
    assert_eq!(status_exit_code(false, 0), 1);
    assert_eq!(status_exit_code(false, 2), 0);
    assert_eq!(status_exit_code(true, 0), 0);
    assert_eq!(pid_list(&vec![12, 7, -3]), "12, 7, -3");
    assert_eq!(pid_list(&Vec::new()), "");
    assert!(!headless(true, true));
    assert!(headless(true, false));
}
