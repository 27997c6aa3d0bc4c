use gitcode_jupyter_tool::browser::{chrome_args, chrome_environment, DisplaySession};

fn session(runtime: bool, wayland: bool, entries: &[&str]) -> DisplaySession {
    DisplaySession {
        headless: false,
        has_display: false,
        has_wayland_display: false,
        uid: 1000,
        runtime_exists: runtime,
        wayland_socket_exists: wayland,
        runtime_entries: entries.iter().map(|s| s.to_string()).collect(),
    }
}

fn pairs(v: &[(&str, &str)]) -> Vec<(String, String)> {
    v.iter().map(|(a, b)| (a.to_string(), b.to_string())).collect()
}

#[test]
fn visible_chrome_gets_a_display() {
    let mut headless = session(true, true, &[]);
    headless.headless = true;
    assert!(chrome_environment(&headless).is_empty());
    let mut shown = session(true, true, &[]);
    shown.has_display = true;
    assert!(chrome_environment(&shown).is_empty());
    assert_eq!(
        chrome_environment(&session(false, false, &["xauth_a"])),
        pairs(&[("DISPLAY", ":1"), ("DBUS_SESSION_BUS_ADDRESS", "unix:path=/run/user/1000/bus")])
    );
    assert_eq!(
        chrome_environment(&session(true, true, &["bus", "xauth_b", "xauth_a"])),
        pairs(&[
            ("XDG_RUNTIME_DIR", "/run/user/1000"),
            ("WAYLAND_DISPLAY", "wayland-0"),
            ("XDG_SESSION_TYPE", "wayland"),
            ("XAUTHORITY", "/run/user/1000/xauth_a"),
            ("DISPLAY", ":1"),
            ("DBUS_SESSION_BUS_ADDRESS", "unix:path=/run/user/1000/bus"),
        ])
    );
    assert_eq!(
        chrome_environment(&session(true, false, &["bus"])),
        pairs(&[
            ("XDG_RUNTIME_DIR", "/run/user/1000"),
            ("DISPLAY", ":1"),
            ("DBUS_SESSION_BUS_ADDRESS", "unix:path=/run/user/1000/bus"),
        ])
    );
}

#[test]
fn chrome_is_started_with_devtools_and_the_profile() {
    assert_eq!(
        chrome_args(61800, "/p", "Default", true, "1440,1000", "https://hub"),
        vec![
            "--remote-debugging-port=61800",
            "--remote-debugging-address=127.0.0.1",
            "--user-data-dir=/p",
            "--profile-directory=Default",
            "--no-first-run",
            "--headless=new",
            "--disable-gpu",
            "--disable-dev-shm-usage",
            "--window-size=1440,1000",
            "https://hub",
        ]
    );
    let v = chrome_args(1, "/p", "P", false, "w", "h");
    assert_eq!(v[5], "--new-window");
    assert_eq!(v.len(), 7);
}
