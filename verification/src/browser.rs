//! How the daemon starts Chrome: its arguments, and the display environment
//! a visible window needs when the daemon itself has none.
use crate::text::{
    append, append_str, chars_of, decimal, decimal_chars, has_prefix, lex_less, lex_lt,
    starts_with, string_of,
};
use vstd::prelude::*;

verus! {

/// `/run/user/<uid>`.
pub open spec fn runtime_dir(uid: u32) -> Seq<char> {
    "/run/user/"@ + decimal(uid as nat)
}

/// `name` is an X authority file of the runtime directory.
pub open spec fn is_xauth(name: Seq<char>) -> bool {
    starts_with(name, "xauth_"@)
}

/// `name` is the first X authority file among `names`, in byte order.
pub open spec fn first_xauth(names: Seq<Seq<char>>, name: Seq<char>) -> bool {
    &&& names.contains(name)
    &&& is_xauth(name)
    &&& forall|i: int| 0 <= i < names.len() && is_xauth(#[trigger] names[i]) ==> !lex_lt(names[i], name)
}

pub open spec fn env_views(v: Seq<(String, String)>) -> Seq<(Seq<char>, Seq<char>)> {
    v.map_values(|p: (String, String)| (p.0@, p.1@))
}

pub open spec fn strings_of(v: Seq<String>) -> Seq<Seq<char>> {
    v.map_values(|s: String| s@)
}

/// What the daemon knows of the session it runs in when it opens a window.
pub struct DisplaySession {
    pub headless: bool,
    /// `DISPLAY` is set.
    pub has_display: bool,
    /// `WAYLAND_DISPLAY` is set.
    pub has_wayland_display: bool,
    pub uid: u32,
    /// `/run/user/<uid>` exists.
    pub runtime_exists: bool,
    /// `/run/user/<uid>/wayland-0` exists.
    pub wayland_socket_exists: bool,
    /// The names in `/run/user/<uid>`, in any order; empty where it cannot
    /// be read.
    pub runtime_entries: Vec<String>,
}

/// The variables Chrome gets for a visible window: none when it runs
/// headless or a display is known. Otherwise the runtime directory when it
/// exists (with the Wayland socket and the first X authority file found
/// there), then display `:1` and the session bus of the user.
pub open spec fn display_env_ok(s: DisplaySession, env: Seq<(Seq<char>, Seq<char>)>) -> bool {
    if s.headless || s.has_display || s.has_wayland_display {
        env.len() == 0
    } else {
        let rt = runtime_dir(s.uid);
        let names = strings_of(s.runtime_entries@);
        let tail = seq![
            ("DISPLAY"@, ":1"@),
            ("DBUS_SESSION_BUS_ADDRESS"@, "unix:path="@ + rt + "/bus"@),
        ];
        if !s.runtime_exists {
            env == tail
        } else {
            let head = seq![("XDG_RUNTIME_DIR"@, rt)] + if s.wayland_socket_exists {
                seq![("WAYLAND_DISPLAY"@, "wayland-0"@), ("XDG_SESSION_TYPE"@, "wayland"@)]
            } else {
                Seq::empty()
            };
            if exists|i: int| 0 <= i < names.len() && is_xauth(#[trigger] names[i]) {
                exists|name: Seq<char>|
                    first_xauth(names, name) && env == head + seq![
                        ("XAUTHORITY"@, rt + "/"@ + name),
                    ] + tail
            } else {
                env == head + tail
            }
        }
    }
}

fn push_pair(v: &mut Vec<(String, String)>, k: &str, val: String)
    ensures
        env_views(final(v)@) == env_views(old(v)@).push((k@, val@)),
{
    let ghost before = env_views(v@);
    v.push((k.to_owned(), val));
    assert(env_views(v@) =~= before.push((k@, val@)));
}

fn first_xauth_name(names: &Vec<String>) -> (r: Option<String>)
    ensures
        r matches Some(n) ==> first_xauth(strings_of(names@), n@),
        r is None ==> forall|i: int|
            0 <= i < names.len() ==> !is_xauth(#[trigger] strings_of(names@)[i]),
{
    let ghost nv = strings_of(names@);
    let prefix = chars_of("xauth_");
    let mut best: Option<Vec<char>> = None;
    let mut i: usize = 0;
    while i < names.len()
        invariant
            i <= names.len(),
            nv == strings_of(names@),
            prefix@ == "xauth_"@,
            match best {
                Some(b) => nv.take(i as int).contains(b@) && is_xauth(b@) && forall|k: int|
                    0 <= k < i && is_xauth(#[trigger] nv[k]) ==> !lex_lt(nv[k], b@),
                None => forall|k: int| 0 <= k < i ==> !is_xauth(#[trigger] nv[k]),
            },
        decreases names.len() - i,
    {
        let name = chars_of(names[i].as_str());
        assert(name@ == nv[i as int]);
        if has_prefix(&name, &prefix) {
            let replace = match &best {
                Some(b) => lex_less(&name, b),
                None => true,
            };
            if replace {
                proof {
                    match &best {
                        Some(b) => {
                            assert forall|k: int|
                                0 <= k < i + 1 && is_xauth(#[trigger] nv[k]) implies !lex_lt(
                                nv[k],
                                name@,
                            ) by {
                                if k < i {
                                    if lex_lt(nv[k], name@) {
                                        crate::text::lemma_lex_transitive(nv[k], name@, b@);
                                    }
                                } else {
                                    crate::text::lemma_lex_irreflexive(name@);
                                }
                            }
                        },
                        None => {
                            assert forall|k: int|
                                0 <= k < i + 1 && is_xauth(#[trigger] nv[k]) implies !lex_lt(
                                nv[k],
                                name@,
                            ) by {
                                crate::text::lemma_lex_irreflexive(name@);
                            }
                        },
                    }
                    assert(nv.take(i + 1)[i as int] == name@);
                }
                best = Some(name);
            } else {
                proof {
                    match &best {
                        Some(b) => {
                            assert(!lex_lt(name@, b@));
                            let k0 = choose|k: int| 0 <= k < i && nv.take(i as int)[k] == b@;
                            assert(nv.take(i + 1)[k0] == b@);
                        },
                        None => {},
                    }
                }
            }
        } else {
            proof {
                match &best {
                    Some(b) => {
                        let k0 = choose|k: int| 0 <= k < i && nv.take(i as int)[k] == b@;
                        assert(nv.take(i + 1)[k0] == b@);
                    },
                    None => {},
                }
            }
        }
        i += 1;
    }
    assert(nv.take(names.len() as int) == nv);
    match best {
        Some(b) => Some(string_of(&b)),
        None => None,
    }
}

/// The environment that Chrome gets for a visible window.
pub fn chrome_environment(s: &DisplaySession) -> (r: Vec<(String, String)>)
    ensures
        display_env_ok(*s, env_views(r@)),
{
    let mut r: Vec<(String, String)> = Vec::new();
    if s.headless || s.has_display || s.has_wayland_display {
        return r;
    }
    let mut rt = chars_of("/run/user/");
    append(&mut rt, &decimal_chars(s.uid as u64));
    let ghost names = strings_of(s.runtime_entries@);
    if s.runtime_exists {
        push_pair(&mut r, "XDG_RUNTIME_DIR", string_of(&rt));
        if s.wayland_socket_exists {
            push_pair(&mut r, "WAYLAND_DISPLAY", "wayland-0".to_owned());
            push_pair(&mut r, "XDG_SESSION_TYPE", "wayland".to_owned());
        }
        let ghost head = env_views(r@);
        assert(head =~= seq![("XDG_RUNTIME_DIR"@, rt@)] + if s.wayland_socket_exists {
            seq![("WAYLAND_DISPLAY"@, "wayland-0"@), ("XDG_SESSION_TYPE"@, "wayland"@)]
        } else {
            Seq::empty()
        });
        match first_xauth_name(&s.runtime_entries) {
            Some(name) => {
                let mut path = rt.clone();
                append_str(&mut path, "/");
                append_str(&mut path, name.as_str());
                push_pair(&mut r, "XAUTHORITY", string_of(&path));
                let mut bus = chars_of("unix:path=");
                append(&mut bus, &rt);
                append_str(&mut bus, "/bus");
                push_pair(&mut r, "DISPLAY", ":1".to_owned());
                push_pair(&mut r, "DBUS_SESSION_BUS_ADDRESS", string_of(&bus));
                proof {
                    let k = choose|k: int| 0 <= k < names.len() && names[k] == name@;
                    assert(is_xauth(names[k]));
                    assert(env_views(r@) =~= head + seq![("XAUTHORITY"@, rt@ + "/"@ + name@)] + seq![
                        ("DISPLAY"@, ":1"@),
                        ("DBUS_SESSION_BUS_ADDRESS"@, "unix:path="@ + rt@ + "/bus"@),
                    ]);
                    assert(first_xauth(names, name@));
                }
                return r;
            },
            None => {},
        }
    }
    let mut bus = chars_of("unix:path=");
    append(&mut bus, &rt);
    append_str(&mut bus, "/bus");
    let ghost before = env_views(r@);
    push_pair(&mut r, "DISPLAY", ":1".to_owned());
    push_pair(&mut r, "DBUS_SESSION_BUS_ADDRESS", string_of(&bus));
    proof {
        assert(env_views(r@) =~= before + seq![
            ("DISPLAY"@, ":1"@),
            ("DBUS_SESSION_BUS_ADDRESS"@, "unix:path="@ + rt@ + "/bus"@),
        ]);
        if !s.runtime_exists {
            assert(before =~= Seq::<(Seq<char>, Seq<char>)>::empty());
        }
    }
    r
}

/// The arguments Chrome is started with: DevTools on `cdp_port` of the
/// loopback host, the daemon's profile, no first-run page, then either a
/// headless window of `window_size` or a new visible window, and the hub.
pub open spec fn chrome_args_for(
    cdp_port: u16,
    user_data_dir: Seq<char>,
    profile_directory: Seq<char>,
    headless: bool,
    window_size: Seq<char>,
    hub_url: Seq<char>,
) -> Seq<Seq<char>> {
    seq![
        "--remote-debugging-port="@ + decimal(cdp_port as nat),
        "--remote-debugging-address=127.0.0.1"@,
        "--user-data-dir="@ + user_data_dir,
        "--profile-directory="@ + profile_directory,
        "--no-first-run"@,
    ] + if headless {
        seq![
            "--headless=new"@,
            "--disable-gpu"@,
            "--disable-dev-shm-usage"@,
            "--window-size="@ + window_size,
        ]
    } else {
        seq!["--new-window"@]
    } + seq![hub_url]
}

fn joined(a: &str, b: &str) -> (r: String)
    ensures
        r@ == a@ + b@,
{
    let mut v = chars_of(a);
    append_str(&mut v, b);
    string_of(&v)
}

pub fn chrome_args(
    cdp_port: u16,
    user_data_dir: &str,
    profile_directory: &str,
    headless: bool,
    window_size: &str,
    hub_url: &str,
) -> (r: Vec<String>)
    ensures
        strings_of(r@) == chrome_args_for(
            cdp_port,
            user_data_dir@,
            profile_directory@,
            headless,
            window_size@,
            hub_url@,
        ),
{
    let mut r: Vec<String> = Vec::new();
    let mut port = chars_of("--remote-debugging-port=");
    append(&mut port, &decimal_chars(cdp_port as u64));
    r.push(string_of(&port));
    r.push("--remote-debugging-address=127.0.0.1".to_owned());
    r.push(joined("--user-data-dir=", user_data_dir));
    r.push(joined("--profile-directory=", profile_directory));
    r.push("--no-first-run".to_owned());
    if headless {
        r.push("--headless=new".to_owned());
        r.push("--disable-gpu".to_owned());
        r.push("--disable-dev-shm-usage".to_owned());
        r.push(joined("--window-size=", window_size));
    } else {
        r.push("--new-window".to_owned());
    }
    r.push(hub_url.to_owned());
    assert(strings_of(r@) =~= chrome_args_for(
        cdp_port,
        user_data_dir@,
        profile_directory@,
        headless,
        window_size@,
        hub_url@,
    ));
    r
}

} // verus!
