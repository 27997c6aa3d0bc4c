//! Decisions of the command-line clients: the remote shell's terminal size
//! and what it runs, and how the control tool recognises, stops and reports
//! the daemon.
use crate::config::{first_word, next_word};
use crate::text::{
    append, append_str, chars_eq, chars_of, decimal, decimal_chars, join, join_chars,
    split_char, split_char_chars, starts_with, has_prefix, string_of, vec_views,
};
use vstd::prelude::*;

verus! {

// ---------------------------------------------------------------------------
// The remote shell
// ---------------------------------------------------------------------------

pub open spec fn at_least_one(n: u16) -> u16 {
    if n == 0 {
        1
    } else {
        n
    }
}

/// The terminal size of a remote shell: both sizes given on the command
/// line win; otherwise a missing one comes from the local terminal's window
/// (at least 1), and where there is no window the sizes are at least 24
/// rows and 120 columns.
pub open spec fn terminal_size_for(rows: u16, cols: u16, window: Option<(u16, u16)>) -> (u16, u16) {
    if rows != 0 && cols != 0 {
        (rows, cols)
    } else {
        match window {
            Some((wr, wc)) => (
                if rows == 0 {
                    at_least_one(wr)
                } else {
                    rows
                },
                if cols == 0 {
                    at_least_one(wc)
                } else {
                    cols
                },
            ),
            None => (
                if rows < 24 {
                    24
                } else {
                    rows
                },
                if cols < 120 {
                    120
                } else {
                    cols
                },
            ),
        }
    }
}

/// Where each side of the remote terminal comes from. When both are given
/// they are used. Otherwise a given side is kept, a missing row count is
/// the window's row count and a missing column count is the window's column
/// count (each at least 1, the rows never taken from the columns or the
/// other way round); with no window, each side is at least 24 rows and 120
/// columns.
pub proof fn lemma_terminal_size_sides(rows: u16, cols: u16, window: Option<(u16, u16)>)
    ensures
        rows != 0 && cols != 0 ==> terminal_size_for(rows, cols, window) == (rows, cols),
        !(rows != 0 && cols != 0) ==> match window {
            Some((wr, wc)) => {
                &&& terminal_size_for(rows, cols, window).0 == (if rows != 0 {
                    rows
                } else if wr >= 1 {
                    wr
                } else {
                    1
                })
                &&& terminal_size_for(rows, cols, window).1 == (if cols != 0 {
                    cols
                } else if wc >= 1 {
                    wc
                } else {
                    1
                })
            },
            None => {
                &&& terminal_size_for(rows, cols, window).0 == (if rows >= 24 {
                    rows
                } else {
                    24
                })
                &&& terminal_size_for(rows, cols, window).1 == (if cols >= 120 {
                    cols
                } else {
                    120
                })
            },
        },
        forall|wr1: u16, wr2: u16, wc: u16|
            cols == 0 ==> #[trigger] terminal_size_for(rows, cols, Some((wr1, wc))).1
                == #[trigger] terminal_size_for(rows, cols, Some((wr2, wc))).1,
        forall|wr: u16, wc1: u16, wc2: u16|
            rows == 0 ==> #[trigger] terminal_size_for(rows, cols, Some((wr, wc1))).0
                == #[trigger] terminal_size_for(rows, cols, Some((wr, wc2))).0,
{
}

pub fn terminal_size(rows: u16, cols: u16, window: Option<(u16, u16)>) -> (r: (u16, u16))
    ensures
        r == terminal_size_for(rows, cols, window),
{
    if rows != 0 && cols != 0 {
        return (rows, cols);
    }
    match window {
        Some((wr, wc)) => (
            if rows == 0 {
                if wr == 0 {
                    1
                } else {
                    wr
                }
            } else {
                rows
            },
            if cols == 0 {
                if wc == 0 {
                    1
                } else {
                    wc
                }
            } else {
                cols
            },
        ),
        None => (
            if rows < 24 {
                24
            } else {
                rows
            },
            if cols < 120 {
                120
            } else {
                cols
            },
        ),
    }
}

/// What the remote shell runs.
pub enum CommandSource {
    /// `-c <command>` with its arguments.
    Inline { command: String, args: Vec<String> },
    /// A script read from standard input, with its arguments.
    Stdin { args: Vec<String> },
    /// The local script `path`, with its arguments.
    Script { path: String, args: Vec<String> },
    /// An interactive shell.
    Interactive,
}

pub open spec fn strings_of(v: Seq<String>) -> Seq<Seq<char>> {
    v.map_values(|s: String| s@)
}

/// The shell's arguments without a leading `--`.
pub open spec fn shell_args_of(args: Seq<Seq<char>>) -> Seq<Seq<char>> {
    if args.len() > 0 && args[0] == "--"@ {
        args.drop_first()
    } else {
        args
    }
}

fn clone_strings(v: &Vec<String>, from: usize) -> (r: Vec<String>)
    requires
        from <= v.len(),
    ensures
        strings_of(r@) == strings_of(v@).skip(from as int),
{
    let mut r: Vec<String> = Vec::new();
    let mut i = from;
    while i < v.len()
        invariant
            from <= i <= v.len(),
            strings_of(r@) == strings_of(v@).subrange(from as int, i as int),
        decreases v.len() - i,
    {
        let ghost before = strings_of(r@);
        r.push(v[i].clone());
        assert(strings_of(r@) =~= before.push(v@[i as int]@));
        assert(strings_of(v@).subrange(from as int, i + 1) =~= strings_of(v@).subrange(
            from as int,
            i as int,
        ).push(v@[i as int]@));
        i += 1;
    }
    assert(strings_of(v@).subrange(from as int, v.len() as int) == strings_of(v@).skip(
        from as int,
    ));
    r
}

/// Chooses what the remote shell runs: a `-c` command, else a script on
/// standard input when `-s` is given, else the script named by the first
/// argument, else an interactive shell when `-i` is given, else standard
/// input when it is not a terminal, else an interactive shell.
pub fn command_source(
    command_string: Option<&str>,
    read_stdin: bool,
    interactive: bool,
    stdin_is_terminal: bool,
    shell_args: &Vec<String>,
) -> (r: CommandSource)
    ensures
        ({
            let args = shell_args_of(strings_of(shell_args@));
            match command_string {
                Some(c) => r matches CommandSource::Inline { command, args: a } && command@ == c@
                    && strings_of(a@) == args,
                None => if read_stdin {
                    r matches CommandSource::Stdin { args: a } && strings_of(a@) == args
                } else if args.len() > 0 {
                    r matches CommandSource::Script { path, args: a } && path@ == args[0]
                        && strings_of(a@) == args.drop_first()
                } else if interactive || stdin_is_terminal {
                    r is Interactive
                } else {
                    r matches CommandSource::Stdin { args: a } && a@.len() == 0
                },
            }
        }),
{
    proof {
        reveal_strlit("--");
    }
    let skip: usize = if shell_args.len() > 0 && crate::config::str_eq(shell_args[0].as_str(), "--") {
        1
    } else {
        0
    };
    let args = clone_strings(shell_args, skip);
    assert(strings_of(shell_args@).skip(0) == strings_of(shell_args@));
    assert(skip == 1 ==> strings_of(shell_args@).skip(1) == strings_of(shell_args@).drop_first());
    match command_string {
        Some(c) => CommandSource::Inline { command: c.to_owned(), args },
        None => {
            if read_stdin {
                CommandSource::Stdin { args }
            } else if args.len() > 0 {
                let path = args[0].clone();
                let rest = clone_strings(&args, 1);
                assert(strings_of(args@).skip(1) == strings_of(args@).drop_first());
                CommandSource::Script { path, args: rest }
            } else if interactive || stdin_is_terminal {
                CommandSource::Interactive
            } else {
                CommandSource::Stdin { args: Vec::new() }
            }
        },
    }
}

// ---------------------------------------------------------------------------
// The control tool
// ---------------------------------------------------------------------------

/// `--visible` wins over `--headless`.
pub fn headless(headless_flag: bool, visible: bool) -> (r: bool)
    ensures
        r == (!visible && headless_flag),
{
    if visible {
        false
    } else {
        headless_flag
    }
}

/// The state letter in a `/proc/<pid>/status` text: the first word after
/// `State:` on the first line that starts with it; `?` where there is none.
pub open spec fn proc_state_of(text: Seq<char>) -> Seq<char> {
    let lines = split_char(text, '\n');
    if exists|i: int| 0 <= i < lines.len() && starts_with(#[trigger] lines[i], "State:"@) {
        let i = choose|i: int|
            0 <= i < lines.len() && starts_with(lines[i], "State:"@) && forall|j: int|
                0 <= j < i ==> !starts_with(lines[j], "State:"@);
        match first_word(lines[i].skip(6)) {
            Some((w, _)) => w,
            None => "?"@,
        }
    } else {
        "?"@
    }
}

pub fn proc_state(text: &str) -> (r: String)
    ensures
        r@ == proc_state_of(text@),
{
    let lines = split_char_chars(&chars_of(text), '\n');
    let ghost lv = vec_views(lines@);
    let prefix = chars_of("State:");
    proof {
        reveal_strlit("State:");
    }
    let mut i: usize = 0;
    while i < lines.len()
        invariant
            i <= lines.len(),
            lv == vec_views(lines@),
            lv == split_char(text@, '\n'),
            prefix@ == "State:"@,
            "State:"@.len() == 6,
            forall|j: int| 0 <= j < i ==> !starts_with(#[trigger] lv[j], "State:"@),
        decreases lines.len() - i,
    {
        if has_prefix(&lines[i], &prefix) {
            proof {
                assert(starts_with(lv[i as int], "State:"@));
                let k = choose|k: int|
                    0 <= k < lv.len() && starts_with(lv[k], "State:"@) && forall|j: int|
                        0 <= j < k ==> !starts_with(lv[j], "State:"@);
                assert(k == i);
            }
            assert(lines@[i as int]@ == lv[i as int]);
            assert(lines@[i as int]@.len() >= 6);
            return match next_word(&lines[i], 6) {
                Some((w, _)) => string_of(&w),
                None => "?".to_owned(),
            };
        }
        i += 1;
    }
    "?".to_owned()
}

/// `s` split at every NUL byte (`[u8]::split`).
pub open spec fn split_nul(s: Seq<u8>) -> Seq<Seq<u8>>
    decreases s.len(),
{
    if s.len() == 0 {
        seq![Seq::empty()]
    } else {
        let r = split_nul(s.drop_last());
        if s.last() == 0 {
            r.push(Seq::empty())
        } else {
            r.update(r.len() - 1, r.last().push(s.last()))
        }
    }
}

proof fn lemma_split_nul_nonempty(s: Seq<u8>)
    ensures
        split_nul(s).len() >= 1,
    decreases s.len(),
{
    if s.len() > 0 {
        lemma_split_nul_nonempty(s.drop_last());
    }
}

pub open spec fn is_piece(p: Seq<u8>) -> bool {
    p.len() > 0
}

/// The arguments in a `/proc/<pid>/cmdline` text: the non-empty pieces
/// between NUL bytes.
pub open spec fn cmdline_parts_of(raw: Seq<u8>) -> Seq<Seq<u8>> {
    split_nul(raw).filter(|p: Seq<u8>| is_piece(p))
}

pub open spec fn byte_views(v: Seq<Vec<u8>>) -> Seq<Seq<u8>> {
    v.map_values(|b: Vec<u8>| b@)
}

pub fn cmdline_parts(raw: &Vec<u8>) -> (r: Vec<Vec<u8>>)
    ensures
        byte_views(r@) == cmdline_parts_of(raw@),
{
    let mut out: Vec<Vec<u8>> = Vec::new();
    let mut cur: Vec<u8> = Vec::new();
    let mut i: usize = 0;
    proof {
        assert(raw@.take(0) =~= Seq::<u8>::empty());
        assert(split_nul(raw@.take(0)).drop_last() =~= Seq::<Seq<u8>>::empty());
        reveal(Seq::filter);
        assert(Seq::<Seq<u8>>::empty().filter(|p: Seq<u8>| is_piece(p)) =~= Seq::<Seq<u8>>::empty());
    }
    while i < raw.len()
        invariant
            i <= raw.len(),
            split_nul(raw@.take(i as int)).len() >= 1,
            byte_views(out@) == split_nul(raw@.take(i as int)).drop_last().filter(
                |p: Seq<u8>| is_piece(p),
            ),
            cur@ == split_nul(raw@.take(i as int)).last(),
        decreases raw.len() - i,
    {
        let ghost prev = split_nul(raw@.take(i as int));
        proof {
            assert(raw@.take(i + 1).drop_last() == raw@.take(i as int));
            assert(raw@.take(i + 1).last() == raw@[i as int]);
            reveal(Seq::filter);
        }
        if raw[i] == 0 {
            let ghost before = byte_views(out@);
            if cur.len() > 0 {
                out.push(cur);
                proof {
                    assert(byte_views(out@) =~= before.push(prev.last()));
                    assert(prev == prev.drop_last().push(prev.last()));
                    assert(prev.filter(|p: Seq<u8>| is_piece(p)) == prev.drop_last().filter(
                        |p: Seq<u8>| is_piece(p),
                    ).push(prev.last()));
                }
            } else {
                proof {
                    assert(prev == prev.drop_last().push(prev.last()));
                    assert(prev.filter(|p: Seq<u8>| is_piece(p)) == prev.drop_last().filter(
                        |p: Seq<u8>| is_piece(p),
                    ));
                }
            }
            cur = Vec::new();
            proof {
                let next = split_nul(raw@.take(i + 1));
                assert(next == prev.push(Seq::empty()));
                assert(next.drop_last() == prev);
            }
        } else {
            cur.push(raw[i]);
            proof {
                let next = split_nul(raw@.take(i + 1));
                assert(next == prev.update(prev.len() - 1, prev.last().push(raw@[i as int])));
                assert(next.drop_last() =~= prev.drop_last());
            }
        }
        i += 1;
    }
    assert(raw@.take(raw.len() as int) == raw@);
    let ghost all = split_nul(raw@);
    proof {
        reveal(Seq::filter);
        assert(all == all.drop_last().push(all.last()));
    }
    if cur.len() > 0 {
        let ghost before = byte_views(out@);
        out.push(cur);
        proof {
            assert(byte_views(out@) =~= before.push(all.last()));
            assert(all.filter(|p: Seq<u8>| is_piece(p)) == all.drop_last().filter(
                |p: Seq<u8>| is_piece(p),
            ).push(all.last()));
        }
    } else {
        proof {
            assert(all.filter(|p: Seq<u8>| is_piece(p)) == all.drop_last().filter(
                |p: Seq<u8>| is_piece(p),
            ));
        }
    }
    out
}

pub open spec fn is_path(o: Option<String>, p: Seq<char>) -> bool {
    o matches Some(a) && a@ == p
}

/// A process is the daemon when its executable is the daemon, or when one
/// of its arguments, resolved to a real path, is (`resolved_args` holds
/// `None` for an argument that does not resolve).
pub fn is_this_jud(daemon_real: &str, exe: Option<&str>, resolved_args: &Vec<Option<String>>) -> (r: bool)
    ensures
        r == ((exe matches Some(e) && e@ == daemon_real@) || exists|i: int|
            0 <= i < resolved_args@.len() && is_path(#[trigger] resolved_args@[i], daemon_real@)),
{
    match exe {
        Some(e) => {
            if crate::config::str_eq(e, daemon_real) {
                return true;
            }
        },
        None => {},
    }
    let mut i: usize = 0;
    while i < resolved_args.len()
        invariant
            i <= resolved_args.len(),
            forall|k: int| 0 <= k < i ==> !is_path(#[trigger] resolved_args@[k], daemon_real@),
        decreases resolved_args.len() - i,
    {
        match &resolved_args[i] {
            Some(a) => {
                if crate::config::str_eq(a.as_str(), daemon_real) {
                    assert(is_path(resolved_args@[i as int], daemon_real@));
                    return true;
                }
            },
            None => {},
        }
        i += 1;
    }
    false
}

/// After a shutdown request the daemon counts as stopped once its API no
/// longer answers and, where its pid is known, the process is gone or a
/// zombie.
pub fn daemon_stopped(api_down: bool, pid_known: bool, state: &str) -> (r: bool)
    ensures
        pid_known ==> r == (api_down && (state@.len() == 0 || state@ == "Z"@)),
        !pid_known ==> r == api_down,
{
    if pid_known {
        api_down && (state.is_empty() || crate::config::str_eq(state, "Z"))
    } else {
        api_down
    }
}

/// The status command succeeds when the API answers or a daemon process
/// was found.
pub fn status_exit_code(health_ok: bool, process_count: usize) -> (r: i32)
    ensures
        r == (if health_ok || process_count > 0 {
            0i32
        } else {
            1i32
        }),
{
    if health_ok || process_count > 0 {
        0
    } else {
        1
    }
}

/// The decimal form of an `i32`.
pub open spec fn int_text(n: i32) -> Seq<char> {
    if n < 0 {
        "-"@ + decimal((-(n as int)) as nat)
    } else {
        decimal(n as nat)
    }
}

pub open spec fn int_texts(v: Seq<i32>) -> Seq<Seq<char>> {
    v.map_values(|n: i32| int_text(n))
}

fn int_chars(n: i32) -> (r: Vec<char>)
    ensures
        r@ == int_text(n),
{
    if n < 0 {
        let m: u64 = (0i64 - (n as i64)) as u64;
        let mut v = chars_of("-");
        append(&mut v, &decimal_chars(m));
        v
    } else {
        decimal_chars(n as u64)
    }
}

/// Process ids as a comma-separated list.
pub fn pid_list(pids: &Vec<i32>) -> (r: String)
    ensures
        r@ == join(int_texts(pids@), ", "@),
{
    let mut parts: Vec<Vec<char>> = Vec::new();
    let mut i: usize = 0;
    while i < pids.len()
        invariant
            i <= pids.len(),
            vec_views(parts@) == int_texts(pids@).take(i as int),
        decreases pids.len() - i,
    {
        let ghost before = vec_views(parts@);
        let t = int_chars(pids[i]);
        parts.push(t);
        assert(vec_views(parts@) =~= before.push(t@));
        assert(int_texts(pids@).take(i + 1) =~= int_texts(pids@).take(i as int).push(
            int_text(pids@[i as int]),
        ));
        i += 1;
    }
    assert(int_texts(pids@).take(pids.len() as int) == int_texts(pids@));
    string_of(&join_chars(&parts, &chars_of(", ")))
}

} // verus!
