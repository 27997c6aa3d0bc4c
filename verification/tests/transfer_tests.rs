use gitcode_jupyter_tool::config::Env;
use gitcode_jupyter_tool::transfer::{
    decode_payload, direction, download_command, encode_payload, extract_download_payload,
    is_remote, local_destination, marker, octal_chars, payload_chunks, remote_basename,
    remote_cwd, remote_destination, remote_path, upload_close, upload_decode, upload_mode,
    upload_open, Direction, TransferError, DOWNLOAD_BEGIN_MARK, DOWNLOAD_END_MARK,
};

#[test]
fn remote_paths_are_resolved_from_the_remote_directory() {
    assert!(is_remote("jupyter:x"));
    assert!(!is_remote("/tmp/jupyter:x"));
    assert_eq!(remote_path("jupyter:", "~").ok(), Some("~/.".to_string()));
    assert_eq!(remote_path("jupyter:/abs/f", "~").ok(), Some("/abs/f".to_string()));
    assert_eq!(remote_path("jupyter:f", "~/").ok(), Some("~/f".to_string()));
    assert_eq!(remote_path("jupyter:f", "/work//").ok(), Some("/work/f".to_string()));
    assert_eq!(remote_path("jupyter:f", ".").ok(), Some("f".to_string()));
    assert_eq!(remote_path("jupyter:f", "").ok(), Some("f".to_string()));
    assert_eq!(remote_path("jupyter:f", "/").ok(), Some("f".to_string()));
    match remote_path("local", "~") {
        Err(TransferError::NotRemote(s)) => assert_eq!(s, "local"),
        _ => panic!(),
    }
    let env = Env::new(vec![("JUPYTER_CWD".to_string(), "".to_string())]);
    assert_eq!(remote_cwd(&env), "");
    assert_eq!(remote_cwd(&Env::new(Vec::new())), "~");
}

#[test]
fn copies_go_toward_the_remote_side() {
    assert_eq!(direction("a", "jupyter:b").ok(), Some(Direction::Upload));
    assert_eq!(direction("jupyter:a", "b").ok(), Some(Direction::Download));
    assert!(matches!(direction("a", "b"), Err(TransferError::OneRemoteNeeded)));
    assert!(matches!(direction("jupyter:a", "jupyter:b"), Err(TransferError::OneRemoteNeeded)));
}

#[test]
fn downloads_land_in_directories_by_name() {
    assert_eq!(remote_basename("/a/b/"), "b");
    assert_eq!(remote_basename("///"), "download");
    assert_eq!(remote_basename("name"), "name");
    assert_eq!(local_destination("/r/data.txt", "out/", false), "out/data.txt");
    assert_eq!(local_destination("/r/data.txt", "out", true), "out/data.txt");
    assert_eq!(local_destination("/r/data.txt", "out.txt", false), "out.txt");
    assert_eq!(remote_destination(Some("f.py"), "jupyter:dir/", "~").ok(), Some("~/dir/f.py".to_string()));
    assert_eq!(remote_destination(None, "jupyter:/d/", "~").ok(), Some("/d/upload".to_string()));
    assert_eq!(remote_destination(Some("f.py"), "jupyter:g.py", "/w").ok(), Some("/w/g.py".to_string()));
    assert_eq!(upload_mode(true, 0o600), 0o755);
    assert_eq!(upload_mode(false, 0o100644), 0o644);
}

#[test]
fn payloads_survive_the_trip() {
    let data: Vec<u8> = (0u8..=255).collect();
    let text = encode_payload(&data);
    assert_eq!(decode_payload(&text), Some(data));
    assert_eq!(encode_payload(&b"abcd".to_vec()), "YWJjZA==");
    assert_eq!(decode_payload("YWJjZA=="), Some(b"abcd".to_vec()));
    assert_eq!(decode_payload("YWJjZA="), None);
    assert_eq!(decode_payload("YWJjZB=="), None);
    assert_eq!(decode_payload(""), Some(Vec::new()));
}

#[test]
fn payloads_go_out_in_chunks() {
    let chunks = payload_chunks("abcdefg", 3).unwrap();
    assert_eq!(chunks, vec!["abc", "def", "g", "\n"]);
    assert_eq!(payload_chunks("ab\n", 0).unwrap(), vec!["a", "b", "\n"]);
    assert_eq!(payload_chunks("", 5).unwrap(), vec!["\n"]);
    assert_eq!(payload_chunks("é", 5).unwrap(), vec!["é", "\n"]);
    assert_eq!(payload_chunks("éa", 2).unwrap(), vec!["é", "a", "\n"]);
    assert_eq!(payload_chunks("aé", 2), None);
    assert_eq!(payload_chunks("é", 1), None);
    assert_eq!(payload_chunks("abcdef", 3).unwrap(), vec!["abc", "def", "\n"]);
}

#[test]
fn upload_scripts() {
    assert_eq!(octal_chars(0o755).iter().collect::<String>(), "755");
    assert_eq!(octal_chars(0).iter().collect::<String>(), "0");
    assert_eq!(
        upload_decode("/d/f x", 0o640, false),
        "mkdir -p \"$(dirname '/d/f x')\"\nbase64 -d \"$tmp_b64\" > '/d/f x'\nchmod 640 '/d/f x'"
    );
    assert_eq!(
        upload_decode("/d", 0o755, true),
        "mkdir -p /d\nbase64 -d \"$tmp_b64\" | tar -xzf - -C /d"
    );
    assert_eq!(
        upload_open("__H__"),
        "set +e\ntmp_b64=$(mktemp /tmp/gjtd-upload.XXXXXX.b64)\ncleanup_gjtd_upload() { rm -f \"$tmp_b64\"; }\ntrap cleanup_gjtd_upload EXIT\ncat > \"$tmp_b64\" <<'__H__'\n"
    );
    assert_eq!(
        upload_close("__H__", "D", "__M__:"),
        "__H__\nD\n__gjtd_upload_status=$?\nprintf '__M__:%s\\n' \"$__gjtd_upload_status\"\n"
    );
    assert_eq!(marker("__GJTD_UPLOAD_", "ab", ":"), "__GJTD_UPLOAD_ab__:");
}

#[test]
fn download_scripts_and_payloads() {
    let cmd = download_command("/x y", false);
    assert!(cmd.starts_with("source_path='/x y'\nif [ -d \"$source_path\" ]; then\n"));
    assert!(cmd.contains("printf '%s\\n' __GJTD_DOWNLOAD_BEGIN__\nbase64 < \"$source_path\"\nprintf '%s\\n' __GJTD_DOWNLOAD_END__\n"));
    let rec = download_command("d", true);
    assert!(rec.contains("tar -czf - -C \"$source_path\" . | base64"));
    assert!(rec.contains("use without -r to copy files"));
    let out = "noise\n__GJTD_DOWNLOAD_BEGIN__\nYWJj\r\nZA==\n__GJTD_DOWNLOAD_END__\n";
    assert_eq!(extract_download_payload(out), Some("YWJjZA==".to_string()));
    assert_eq!(extract_download_payload("__GJTD_DOWNLOAD_END__ x __GJTD_DOWNLOAD_BEGIN__"), None);
    assert_eq!(extract_download_payload("__GJTD_DOWNLOAD_BEGIN__ only"), None);
    assert_eq!(extract_download_payload("__GJTD_DOWNLOAD_BEGIN__GJTD_DOWNLOAD_END__"), None);
}

#[test]
fn download_reads_back_the_bytes() {
    let bytes: Vec<u8> = (0u8..=200).collect();
    let text = encode_payload(&bytes);
    let wrapped: Vec<String> = text.as_bytes().chunks(76).map(|c| String::from_utf8(c.to_vec()).unwrap()).collect();
    let stdout = format!(
        "noise\r\n{}\r\n{}\r\n{}\r\n$ ",
        DOWNLOAD_BEGIN_MARK,
        wrapped.join("\r\n"),
        DOWNLOAD_END_MARK
    );
    let payload = extract_download_payload(&stdout).unwrap();
    assert_eq!(payload, text);
    assert_eq!(decode_payload(&payload), Some(bytes));
}
