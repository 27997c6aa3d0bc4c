//! Shell quoting and the shell text that the tools send to the remote
//! terminal, and the reading of what comes back.
use crate::foreign::{random_bytes, regex_replace_all, regex_replaced};
use crate::text::{
    vec_views, append, append_str, chars_eq, chars_of, contains, ends_with, find, has_prefix, has_substring, has_suffix, hex_lower, hex_lower_chars, is_digit, is_digit_char, is_first_occurrence, join, join_chars, occurs_at, parse_signed, parse_signed_chars, remove_char, remove_char_chars, replace_all, replace_all_chars, slice, starts_with, string_of, trim_end_char, trim_end_char_chars,
};
use vstd::prelude::*;

verus! {

/// The ANSI escape sequences that `strip_terminal_noise` removes.
pub const ANSI_PATTERN: &'static str = "\x1b\\[[0-9;?]*[ -/]*[@-~]";

// ---------------------------------------------------------------------------
// Quoting
// ---------------------------------------------------------------------------

/// The characters that `shell_quote` leaves unquoted.
pub open spec fn is_shell_safe(c: char) -> bool {
    ||| ('A' <= c && c <= 'Z')
    ||| ('a' <= c && c <= 'z')
    ||| ('0' <= c && c <= '9')
    ||| c == '_'
    ||| c == '@'
    ||| c == '%'
    ||| c == '+'
    ||| c == '='
    ||| c == ':'
    ||| c == ','
    ||| c == '.'
    ||| c == '/'
    ||| c == '-'
}

pub open spec fn all_shell_safe(s: Seq<char>) -> bool {
    forall|i: int| 0 <= i < s.len() ==> is_shell_safe(#[trigger] s[i])
}

/// The single-quoted form of `s` for a POSIX shell.
pub open spec fn shell_quoted(s: Seq<char>) -> Seq<char> {
    if s.len() == 0 {
        "''"@
    } else if all_shell_safe(s) {
        s
    } else {
        "'"@ + replace_all(s, "'"@, "'\"'\"'"@) + "'"@
    }
}

pub fn is_shell_safe_char(c: char) -> (r: bool)
    ensures
        r == is_shell_safe(c),
{
    ('A' <= c && c <= 'Z') || ('a' <= c && c <= 'z') || ('0' <= c && c <= '9') || c == '_'
        || c == '@' || c == '%' || c == '+' || c == '=' || c == ':' || c == ',' || c == '.' || c
        == '/' || c == '-'
}

/// Quotes `v` for a POSIX shell.
pub fn shell_quote_chars(v: &Vec<char>) -> (r: Vec<char>)
    ensures
        r@ == shell_quoted(v@),
{
    if v.len() == 0 {
        return chars_of("''");
    }
    let mut i: usize = 0;
    let mut safe = true;
    while i < v.len()
        invariant
            i <= v.len(),
            safe == (forall|j: int| 0 <= j < i ==> is_shell_safe(#[trigger] v@[j])),
        decreases v.len() - i,
    {
        if !is_shell_safe_char(v[i]) {
            safe = false;
        }
        i += 1;
    }
    if safe {
        return v.clone();
    }
    let quote = chars_of("'");
    let escaped = chars_of("'\"'\"'");
    proof {
        reveal_strlit("'");
    }
    let mut r = quote.clone();
    let body = replace_all_chars(v, &quote, &escaped);
    append(&mut r, &body);
    append(&mut r, &quote);
    r
}

/// Quotes `value` for a POSIX shell: the empty string becomes `''`, a value
/// made only of safe characters stays as it is, and anything else is put in
/// single quotes with each `'` written as `'"'"'`.
pub fn shell_quote(value: &str) -> (r: String)
    ensures
        r@ == shell_quoted(value@),
{
    let v = chars_of(value);
    string_of(&shell_quote_chars(&v))
}

/// Where a POSIX shell is inside a word: outside quotes, inside `'...'`,
/// or inside `"..."`.
pub enum QuoteMode {
    Bare,
    Single,
    Double,
}

pub open spec fn prepend(c: char, o: Option<Seq<char>>) -> Option<Seq<char>> {
    match o {
        Some(w) => Some(seq![c] + w),
        None => None,
    }
}

/// The value a POSIX shell reads from the word `s`, starting in `mode`: a
/// `'` or `"` opens a quoted run that the same quote closes, characters of
/// a `'`-run are taken as they are, and so are those of a `"`-run and the
/// safe characters outside quotes. `None` for what this reading does not
/// cover: an unclosed run, `\`, `$` or a backquote inside `"..."`, or an
/// unsafe character outside quotes.
pub open spec fn shell_read(s: Seq<char>, mode: QuoteMode) -> Option<Seq<char>>
    decreases s.len(),
{
    if s.len() == 0 {
        if mode is Bare {
            Some(Seq::empty())
        } else {
            None
        }
    } else {
        let c = s[0];
        let rest = s.drop_first();
        match mode {
            QuoteMode::Single => if c == '\'' {
                shell_read(rest, QuoteMode::Bare)
            } else {
                prepend(c, shell_read(rest, QuoteMode::Single))
            },
            QuoteMode::Double => if c == '"' {
                shell_read(rest, QuoteMode::Bare)
            } else if c == '\\' || c == '$' || c == '`' {
                None
            } else {
                prepend(c, shell_read(rest, QuoteMode::Double))
            },
            QuoteMode::Bare => if c == '\'' {
                shell_read(rest, QuoteMode::Single)
            } else if c == '"' {
                shell_read(rest, QuoteMode::Double)
            } else if is_shell_safe(c) {
                prepend(c, shell_read(rest, QuoteMode::Bare))
            } else {
                None
            },
        }
    }
}

proof fn lemma_read_safe(v: Seq<char>)
    requires
        all_shell_safe(v),
    ensures
        shell_read(v, QuoteMode::Bare) == Some(v),
    decreases v.len(),
{
    if v.len() > 0 {
        assert(is_shell_safe(v[0]));
        assert(all_shell_safe(v.drop_first()));
        lemma_read_safe(v.drop_first());
        assert(seq![v[0]] + v.drop_first() =~= v);
    }
}

proof fn lemma_read_escaped(v: Seq<char>, t: Seq<char>)
    ensures
        shell_read(replace_all(v, "'"@, "'\"'\"'"@) + t, QuoteMode::Single) == match shell_read(
            t,
            QuoteMode::Single,
        ) {
            Some(w) => Some(v + w),
            None => None::<Seq<char>>,
        },
    decreases v.len(),
{
    reveal_strlit("'");
    reveal_strlit("'\"'\"'");
    let e = "'\"'\"'"@;
    if v.len() == 0 {
        assert(replace_all(v, "'"@, e) + t =~= t);
        assert(v + Seq::<char>::empty() =~= v);
        match shell_read(t, QuoteMode::Single) {
            Some(w) => assert(v + w =~= w),
            None => {},
        }
    } else if starts_with(v, "'"@) {
        let tail = v.skip(1);
        let inner = replace_all(tail, "'"@, e) + t;
        lemma_read_escaped(tail, t);
        let s0 = replace_all(v, "'"@, e) + t;
        assert(s0 =~= e + inner);
        let s1 = s0.drop_first();
        let s2 = s1.drop_first();
        let s3 = s2.drop_first();
        let s4 = s3.drop_first();
        assert(s0[0] == '\'' && s1[0] == '"' && s2[0] == '\'' && s3[0] == '"' && s4[0] == '\'');
        assert(s4.drop_first() =~= inner);
        assert(shell_read(s4, QuoteMode::Bare) == shell_read(inner, QuoteMode::Single));
        assert(shell_read(s3, QuoteMode::Double) == shell_read(s4, QuoteMode::Bare));
        assert(shell_read(s2, QuoteMode::Double) == prepend('\'', shell_read(s3, QuoteMode::Double)));
        assert(shell_read(s1, QuoteMode::Bare) == shell_read(s2, QuoteMode::Double));
        assert(shell_read(s0, QuoteMode::Single) == shell_read(s1, QuoteMode::Bare));
        assert(v.take(1)[0] == v[0]);
        assert("'"@[0] == '\'');
        assert(v[0] == '\'');
        assert(v =~= seq!['\''] + tail);
        match shell_read(t, QuoteMode::Single) {
            Some(w) => assert(seq!['\''] + (tail + w) =~= v + w),
            None => {},
        }
    } else {
        let tail = v.drop_first();
        lemma_read_escaped(tail, t);
        assert(v[0] != '\'') by {
            if v[0] == '\'' {
                assert(v.take(1) =~= "'"@);
            }
        }
        assert(v =~= seq![v[0]] + tail);
        let s0 = replace_all(v, "'"@, e) + t;
        assert(s0 =~= seq![v[0]] + (replace_all(tail, "'"@, e) + t));
        assert(s0.drop_first() =~= replace_all(tail, "'"@, e) + t);
        match shell_read(t, QuoteMode::Single) {
            Some(w) => assert(seq![v[0]] + (tail + w) =~= v + w),
            None => {},
        }
    }
}

/// Quoting is faithful: the shell reads a quoted value back as exactly that
/// value, whatever characters it holds.
pub proof fn lemma_shell_quote_reads_back(v: Seq<char>)
    ensures
        shell_read(shell_quoted(v), QuoteMode::Bare) == Some(v),
{
    reveal_strlit("''");
    reveal_strlit("'");
    assert(shell_read(Seq::<char>::empty(), QuoteMode::Bare) == Some(Seq::<char>::empty()));
    if v.len() == 0 {
        let q = "''"@;
        assert(q.drop_first().drop_first() =~= Seq::<char>::empty());
        assert(q[0] == '\'' && q.drop_first()[0] == '\'');
        assert(shell_read(q.drop_first(), QuoteMode::Single) == Some(Seq::<char>::empty()));
        assert(v =~= Seq::<char>::empty());
    } else if all_shell_safe(v) {
        lemma_read_safe(v);
    } else {
        let body = replace_all(v, "'"@, "'\"'\"'"@);
        let q = "'"@ + body + "'"@;
        assert(q[0] == '\'');
        assert(q.drop_first() =~= body + "'"@);
        lemma_read_escaped(v, "'"@);
        assert("'"@.drop_first() =~= Seq::<char>::empty());
        assert("'"@[0] == '\'');
        assert(shell_read("'"@, QuoteMode::Single) == Some(Seq::<char>::empty()));
        assert(v + Seq::<char>::empty() =~= v);
    }
}

pub open spec fn remote_path_quoted(p: Seq<char>) -> Seq<char> {
    if p == "~"@ {
        "~"@
    } else if starts_with(p, "~/"@) {
        "~/"@ + shell_quoted(p.skip(2))
    } else {
        shell_quoted(p)
    }
}

/// Quotes a remote path, keeping a leading `~` or `~/` unquoted so that the
/// remote shell still expands it.
pub fn quote_remote_path_for_shell(path: &str) -> (r: String)
    ensures
        r@ == remote_path_quoted(path@),
{
    let p = chars_of(path);
    let tilde = chars_of("~");
    if chars_eq(&p, &tilde) {
        return string_of(&tilde);
    }
    let home = chars_of("~/");
    proof {
        reveal_strlit("~/");
    }
    if has_prefix(&p, &home) {
        let rest = slice(&p, 2, p.len());
        assert(rest@ == p@.skip(2));
        let mut r = home.clone();
        append(&mut r, &shell_quote_chars(&rest));
        return string_of(&r);
    }
    string_of(&shell_quote_chars(&p))
}

// ---------------------------------------------------------------------------
// Terminal output
// ---------------------------------------------------------------------------

/// The text that `strip_terminal_noise` gives: ANSI escape sequences removed
/// (by the regex `ANSI_PATTERN`), then every carriage return removed.
pub open spec fn noise_stripped(text: Seq<char>) -> Seq<char> {
    match regex_replaced(ANSI_PATTERN@, text, Seq::empty()) {
        Some(t) => remove_char(t, '\r'),
        None => remove_char(text, '\r'),
    }
}

/// Removes ANSI escape sequences and carriage returns from terminal output.
/// Should the escape pattern fail to compile, only the carriage returns are
/// removed.
pub fn strip_terminal_noise(text: &str) -> (r: String)
    ensures
        r@ == noise_stripped(text@),
{
    let cleaned = match regex_replace_all(ANSI_PATTERN, text, "") {
        Ok(s) => chars_of(s.as_str()),
        Err(_) => chars_of(text),
    };
    proof {
        assert(""@ == Seq::<char>::empty()) by {
            reveal_strlit("");
        }
    }
    string_of(&remove_char_chars(&cleaned, '\r'))
}

/// `bytes` random bytes in lower-case hexadecimal.
pub fn token_hex(bytes: usize) -> (r: String)
    requires
        bytes <= usize::MAX / 2,
    ensures
        exists|b: Seq<u8>| b.len() == bytes && r@ == hex_lower(b),
        r@.len() == 2 * bytes,
{
    let data = random_bytes(bytes);
    let h = hex_lower_chars(&data);
    proof {
        lemma_hex_lower_len(data@);
    }
    string_of(&h)
}

pub proof fn lemma_hex_lower_len(b: Seq<u8>)
    ensures
        hex_lower(b).len() == 2 * b.len(),
    decreases b.len(),
{
    if b.len() > 0 {
        lemma_hex_lower_len(b.drop_last());
    }
}

/// Rows and columns of a terminal request: absent values default to 24 and
/// 120, zero becomes 1, and the result is cut to 16 bits as `as u16` does.
pub open spec fn rows_cols(rows: Option<u64>, cols: Option<u64>) -> (u16, u16) {
    let r = match rows {
        Some(v) => v,
        None => 24,
    };
    let c = match cols {
        Some(v) => v,
        None => 120,
    };
    let r1: u64 = if r < 1 { 1 } else { r };
    let c1: u64 = if c < 1 { 1 } else { c };
    ((r1 % 65536) as u16, (c1 % 65536) as u16)
}

pub fn terminal_rows_cols(rows: Option<u64>, cols: Option<u64>) -> (r: (u16, u16))
    ensures
        r == rows_cols(rows, cols),
{
    let r = match rows {
        Some(v) => v,
        None => 24,
    };
    let c = match cols {
        Some(v) => v,
        None => 120,
    };
    let r1 = if r < 1 { 1 } else { r };
    let c1 = if c < 1 { 1 } else { c };
    ((r1 % 65536) as u16, (c1 % 65536) as u16)
}

/// The leading run of ASCII digits of `s`.
pub open spec fn leading_digits(s: Seq<char>) -> Seq<char>
    decreases s.len(),
{
    if s.len() > 0 && is_digit(s[0]) {
        seq![s[0]] + leading_digits(s.drop_first())
    } else {
        Seq::empty()
    }
}

/// What `find_marker` reports: at the first occurrence of `marker`, the
/// status written right after it and the text before it; `None` where the
/// marker is absent, no digits follow it, or they exceed `i32`.
pub open spec fn marker_report(collected: Seq<char>, marker: Seq<char>) -> Option<(int, Seq<char>)> {
    if contains(collected, marker) {
        let i = choose|i: int| is_first_occurrence(collected, marker, i);
        let d = leading_digits(collected.skip(i + marker.len()));
        if d.len() == 0 {
            None
        } else {
            match parse_signed(d, i32::MIN as int, i32::MAX as int) {
                Some(n) => Some((n, collected.take(i))),
                None => None,
            }
        }
    } else {
        None
    }
}

proof fn lemma_first_occurrence_unique(s: Seq<char>, p: Seq<char>, i: int, j: int)
    requires
        is_first_occurrence(s, p, i),
        is_first_occurrence(s, p, j),
    ensures
        i == j,
{
}

/// The leading digits of `v[from..]`, and where they end.
fn digits_after(v: &Vec<char>, from: usize) -> (r: Vec<char>)
    requires
        from <= v.len(),
    ensures
        r@ == leading_digits(v@.skip(from as int)),
{
    let mut j = from;
    while j < v.len() && is_digit_char(v[j])
        invariant
            from <= j <= v.len(),
            leading_digits(v@.skip(from as int)) == v@.subrange(from as int, j as int)
                + leading_digits(v@.skip(j as int)),
        decreases v.len() - j,
    {
        proof {
            let t = v@.skip(j as int);
            assert(t.drop_first() == v@.skip(j + 1));
            assert(v@.subrange(from as int, j + 1) == v@.subrange(from as int, j as int) + seq![
                v@[j as int],
            ]);
        }
        j += 1;
    }
    proof {
        assert(leading_digits(v@.skip(j as int)) == Seq::<char>::empty());
        assert(v@.subrange(from as int, from as int) == Seq::<char>::empty());
    }
    slice(v, from, j)
}

/// Finds `marker` in the collected terminal output and reads the exit status
/// that follows it; the text before the marker is the command's output.
pub fn find_marker(collected: &str, marker: &str) -> (r: Option<(i32, String)>)
    ensures
        match marker_report(collected@, marker@) {
            Some((n, t)) => r matches Some((s, o)) && s == n && o@ == t,
            None => r is None,
        },
{
    let c = chars_of(collected);
    let m = chars_of(marker);
    let idx = find(&c, &m);
    match idx {
        None => None,
        Some(i) => {
            proof {
                let k = choose|k: int| is_first_occurrence(c@, m@, k);
                lemma_first_occurrence_unique(c@, m@, i as int, k);
            }
            assert(occurs_at(c@, m@, i as int));
            assert(i + m.len() <= c.len());
            let d = digits_after(&c, i + m.len());
            if d.len() == 0 {
                return None;
            }
            match parse_signed_chars(&d, i32::MIN as i64, i32::MAX as i64) {
                Some(n) => {
                    let before = slice(&c, 0, i);
                    assert(before@ == c@.take(i as int));
                    Some((n as i32, string_of(&before)))
                },
                None => None,
            }
        },
    }
}

proof fn lemma_leading_digits_of(d: Seq<char>, rest: Seq<char>)
    requires
        crate::text::all_digits(d),
        rest.len() == 0 || !is_digit(rest[0]),
    ensures
        leading_digits(d + rest) == d,
    decreases d.len(),
{
    if d.len() == 0 {
        assert(d + rest =~= rest);
    } else {
        assert(is_digit(d[0]));
        assert((d + rest)[0] == d[0]);
        assert((d + rest).drop_first() =~= d.drop_first() + rest);
        lemma_leading_digits_of(d.drop_first(), rest);
        assert(seq![d[0]] + d.drop_first() =~= d);
    }
}

/// The exit status that a wrapped command prints after its marker is read
/// back exactly, with the output before the marker, when that output does
/// not already hold the marker and what follows the status is not a digit.
pub proof fn lemma_marker_reads_back(output: Seq<char>, marker: Seq<char>, status: u8, rest: Seq<char>)
    requires
        marker.len() > 0,
        !contains(output + marker.drop_last(), marker),
        rest.len() == 0 || !is_digit(rest[0]),
    ensures
        marker_report(output + marker + crate::text::decimal(status as nat) + rest, marker) == Some(
            (status as int, output),
        ),
{
    let d = crate::text::decimal(status as nat);
    let c = output + marker + d + rest;
    let i = output.len() as int;
    crate::text::lemma_decimal_digits(status as nat);
    assert(c.subrange(i, i + marker.len()) =~= marker);
    assert(occurs_at(c, marker, i));
    assert forall|j: int| 0 <= j < i implies !occurs_at(c, marker, j) by {
        if occurs_at(c, marker, j) {
            let pre = output + marker.drop_last();
            assert(c.subrange(j, j + marker.len()) =~= pre.subrange(j, j + marker.len()));
            assert(occurs_at(pre, marker, j));
        }
    }
    assert(is_first_occurrence(c, marker, i));
    assert(contains(c, marker));
    let k = choose|k: int| is_first_occurrence(c, marker, k);
    lemma_first_occurrence_unique(c, marker, i, k);
    assert(c.skip(i + marker.len()) =~= d + rest);
    lemma_leading_digits_of(d, rest);
    assert(c.take(i) =~= output);
    assert(is_digit(d[0]));
    assert(d[0] != '-' && d[0] != '+');
}

// ---------------------------------------------------------------------------
// Remote command text
// ---------------------------------------------------------------------------

pub open spec fn quoted_all(args: Seq<Seq<char>>) -> Seq<Seq<char>> {
    args.map_values(|a: Seq<char>| shell_quoted(a))
}

pub open spec fn views_of(v: Seq<String>) -> Seq<Seq<char>> {
    v.map_values(|s: String| s@)
}

/// Each argument quoted, in order, separated by single spaces.
pub fn quote_args(args: &Vec<String>) -> (r: Vec<char>)
    ensures
        r@ == join(quoted_all(views_of(args@)), " "@),
{
    let mut parts: Vec<Vec<char>> = Vec::new();
    let mut i: usize = 0;
    while i < args.len()
        invariant
            i <= args.len(),
            parts.len() == i,
            vec_views(parts@) == quoted_all(views_of(args@)).take(i as int),
        decreases args.len() - i,
    {
        let a = chars_of(args[i].as_str());
        let q = shell_quote_chars(&a);
        let ghost before = parts@;
        parts.push(q);
        proof {
            let qa = quoted_all(views_of(args@));
            assert(views_of(args@)[i as int] == args@[i as int]@);
            assert(qa[i as int] == q@);
            assert forall|j: int| 0 <= j <= i implies #[trigger] vec_views(parts@)[j] == qa.take(i + 1)[j] by {
                if j < i {
                    assert(parts@[j] == before[j]);
                    assert(vec_views(before)[j] == qa.take(i as int)[j]);
                }
            }
        }
        i += 1;
        assert(vec_views(parts@) =~= quoted_all(views_of(args@)).take(
            i as int,
        ));
    }
    assert(quoted_all(views_of(args@)).take(args.len() as int) == quoted_all(views_of(args@)));
    join_chars(&parts, &chars_of(" "))
}

/// `bash -c` with the command and its arguments, each quoted.
pub open spec fn c_command(command: Seq<char>, args: Seq<Seq<char>>) -> Seq<char> {
    "bash -c "@ + join(quoted_all(seq![command] + args), " "@)
}

/// The remote command for `jush -c COMMAND ARGS...`.
pub fn build_c_command(command: &str, command_args: &Vec<String>) -> (r: String)
    ensures
        r@ == c_command(command@, views_of(command_args@)),
{
    let mut all: Vec<String> = Vec::new();
    all.push(command.to_string());
    let mut i: usize = 0;
    while i < command_args.len()
        invariant
            i <= command_args.len(),
            all.len() == i + 1,
            views_of(all@) == seq![command@] + views_of(command_args@).take(i as int),
        decreases command_args.len() - i,
    {
        let ghost before = all@;
        all.push(command_args[i].clone());
        proof {
            assert forall|j: int| 0 <= j < all@.len() implies #[trigger] views_of(all@)[j] == (
            seq![command@] + views_of(command_args@).take(i + 1))[j] by {
                if j < all@.len() - 1 {
                    assert(all@[j] == before[j]);
                    assert(views_of(before)[j] == (seq![command@] + views_of(command_args@).take(
                        i as int,
                    ))[j]);
                }
            }
        }
        i += 1;
        assert(views_of(all@) =~= seq![command@] + views_of(command_args@).take(i as int));
    }
    assert(views_of(command_args@).take(command_args.len() as int) == views_of(command_args@));
    let mut r = chars_of("bash -c ");
    append(&mut r, &quote_args(&all));
    string_of(&r)
}

/// `cd` into the remote working directory, then the command.
pub open spec fn in_remote_cwd(command: Seq<char>, cwd: Seq<char>) -> Seq<char> {
    "cd "@ + remote_path_quoted(cwd) + "\n"@ + command
}

/// Prefixes `command` with a `cd` into `cwd`, the remote working directory.
pub fn with_remote_cwd(command: &str, cwd: &str) -> (r: String)
    ensures
        r@ == in_remote_cwd(command@, cwd@),
{
    let mut r = chars_of("cd ");
    append_str(&mut r, quote_remote_path_for_shell(cwd).as_str());
    append_str(&mut r, "\n");
    append_str(&mut r, command);
    string_of(&r)
}

/// `text` ending in exactly the newline that it had or that was added.
pub open spec fn with_newline(text: Seq<char>) -> Seq<char> {
    if ends_with(text, "\n"@) {
        text
    } else {
        text.push('\n')
    }
}

/// The heredoc command that runs `text` with `bash -s`, closed by `delimiter`.
pub open spec fn stdin_script(text: Seq<char>, args: Seq<Seq<char>>, delimiter: Seq<char>) -> Seq<
    char,
> {
    let quoted = join(quoted_all(args), " "@);
    let runner = if quoted.len() == 0 {
        "bash -s"@
    } else {
        "bash -s -- "@ + quoted
    };
    runner + " <<'"@ + delimiter + "'\n"@ + trim_end_char(with_newline(text), '\n') + delimiter
        + "\n"@
}

pub fn with_newline_chars(text: &str) -> (r: Vec<char>)
    ensures
        r@ == with_newline(text@),
{
    let mut t = chars_of(text);
    let nl = chars_of("\n");
    if !has_suffix(&t, &nl) {
        t.push('\n');
    }
    t
}

/// A heredoc delimiter that starts with `prefix` and does not occur in
/// `text`: `prefix`, 24 random hex digits and `__`, drawn again while it
/// occurs in `text`. After many draws that all occur (which does not happen
/// in practice) a delimiter longer than `text` is used instead.
pub fn pick_delimiter(prefix: &str, text: &Vec<char>) -> (r: Vec<char>)
    ensures
        starts_with(r@, prefix@),
        !contains(text@, r@),
{
    let mut attempt: usize = 0;
    while attempt < 64
        decreases 64 - attempt,
    {
        let mut d = chars_of(prefix);
        append_str(&mut d, token_hex(12).as_str());
        append_str(&mut d, "__");
        assert(d@.take(prefix@.len() as int) == prefix@);
        if !has_substring(text, &d) {
            return d;
        }
        attempt += 1;
    }
    let mut d = chars_of(prefix);
    assert(d@.take(prefix@.len() as int) == prefix@);
    let mut k: usize = 0;
    let n = text.len();
    while k < n
        invariant
            k <= n,
            n == text.len(),
            d@.len() == prefix@.len() + k,
            d@.take(prefix@.len() as int) == prefix@,
        decreases n - k,
    {
        d.push('x');
        k += 1;
        assert(d@.take(prefix@.len() as int) == prefix@);
    }
    d.push('x');
    assert(d@.take(prefix@.len() as int) == prefix@);
    assert(!contains(text@, d@)) by {
        assert forall|i: int| !occurs_at(text@, d@, i) by {}
    }
    d
}

/// The remote command for a script read from stdin (`jush -s ARGS...`).
pub fn build_stdin_script_command(text: &str, script_args: &Vec<String>) -> (r: String)
    ensures
        exists|d: Seq<char>|
            starts_with(d, "__JUSH_STDIN_"@) && !contains(with_newline(text@), d) && r@
                == stdin_script(text@, views_of(script_args@), d),
{
    let t = with_newline_chars(text);
    let delimiter = pick_delimiter("__JUSH_STDIN_", &t);
    let quoted = quote_args(script_args);
    let mut r = if quoted.len() == 0 {
        chars_of("bash -s")
    } else {
        let mut runner = chars_of("bash -s -- ");
        append(&mut runner, &quoted);
        runner
    };
    append_str(&mut r, " <<'");
    append(&mut r, &delimiter);
    append_str(&mut r, "'\n");
    append(&mut r, &trim_end_char_chars(&t, '\n'));
    append(&mut r, &delimiter);
    append_str(&mut r, "\n");
    string_of(&r)
}

/// The remote command that writes a local script to a temporary remote file
/// and runs it.
pub open spec fn script_command(
    text: Seq<char>,
    remote_path: Seq<char>,
    delimiter: Seq<char>,
    executable: bool,
    args: Seq<Seq<char>>,
) -> Seq<char> {
    let quoted = join(quoted_all(args), " "@);
    let base = if executable {
        "\"$remote_script\""@
    } else {
        "bash \"$remote_script\""@
    };
    let runner = if quoted.len() == 0 {
        base
    } else {
        base + " "@ + quoted
    };
    join(
        seq![
            "remote_script="@ + shell_quoted(remote_path),
            "cleanup_jush_script() { rm -f \"$remote_script\"; }"@,
            "trap cleanup_jush_script EXIT"@,
            "cat > \"$remote_script\" <<'"@ + delimiter + "'"@,
            trim_end_char(with_newline(text), '\n'),
            delimiter,
            "chmod +x \"$remote_script\""@,
            runner,
            Seq::empty(),
        ],
        "\n"@,
    )
}

/// The remote command for `jush SCRIPT ARGS...`: `text` is the script's
/// content, `file_name` its file name, and `mode_executable` whether its
/// permission bits allow execution. The script runs directly when it starts
/// with `#!` or is executable, else through `bash`.
pub fn build_script_command(
    text: &str,
    file_name: Option<&str>,
    mode_executable: bool,
    script_args: &Vec<String>,
) -> (r: String)
    ensures
        exists|d: Seq<char>, tag: Seq<char>|
            starts_with(d, "__JUSH_SCRIPT_"@) && !contains(with_newline(text@), d) && tag.len()
                == 16 && r@ == script_command(
                text@,
                "/tmp/jush-"@ + tag + "-"@ + match file_name {
                    Some(n) => n@,
                    None => "script"@,
                },
                d,
                starts_with(text@, "#!"@) || mode_executable,
                views_of(script_args@),
            ),
{
    let t = with_newline_chars(text);
    let delimiter = pick_delimiter("__JUSH_SCRIPT_", &t);
    let tag = token_hex(8);
    let mut remote_path = chars_of("/tmp/jush-");
    append_str(&mut remote_path, tag.as_str());
    append_str(&mut remote_path, "-");
    match file_name {
        Some(n) => append_str(&mut remote_path, n),
        None => append_str(&mut remote_path, "script"),
    }
    let raw = chars_of(text);
    let executable = has_prefix(&raw, &chars_of("#!")) || mode_executable;
    let quoted = quote_args(script_args);
    let mut runner = if executable {
        chars_of("\"$remote_script\"")
    } else {
        chars_of("bash \"$remote_script\"")
    };
    if quoted.len() != 0 {
        append_str(&mut runner, " ");
        append(&mut runner, &quoted);
    }
    let mut first = chars_of("remote_script=");
    append(&mut first, &shell_quote_chars(&remote_path));
    let mut heredoc = chars_of("cat > \"$remote_script\" <<'");
    append(&mut heredoc, &delimiter);
    append_str(&mut heredoc, "'");
    let mut lines: Vec<Vec<char>> = Vec::new();
    lines.push(first);
    lines.push(chars_of("cleanup_jush_script() { rm -f \"$remote_script\"; }"));
    lines.push(chars_of("trap cleanup_jush_script EXIT"));
    lines.push(heredoc);
    lines.push(trim_end_char_chars(&t, '\n'));
    lines.push(delimiter.clone());
    lines.push(chars_of("chmod +x \"$remote_script\""));
    lines.push(runner);
    lines.push(Vec::new());
    let r = join_chars(&lines, &chars_of("\n"));
    proof {
        let ghost views = vec_views(lines@);
        assert(views =~= seq![
            views[0],
            views[1],
            views[2],
            views[3],
            views[4],
            views[5],
            views[6],
            views[7],
            views[8],
        ]);
    }
    string_of(&r)
}

/// The text sent to run `command` and report its exit status after `marker`.
pub open spec fn run_wrapper(command: Seq<char>, marker: Seq<char>) -> Seq<char> {
    join(
        seq![
            "("@,
            command,
            ")"@,
            "__gjtd_run_status=$?"@,
            "printf '"@ + marker + "%s\\n' \"$__gjtd_run_status\""@,
            Seq::empty(),
        ],
        "\n"@,
    )
}

/// Wraps `command` in a subshell and prints its exit status after `marker`.
pub fn run_wrapper_script(command: &str, marker: &str) -> (r: String)
    ensures
        r@ == run_wrapper(command@, marker@),
{
    let mut printf = chars_of("printf '");
    append_str(&mut printf, marker);
    append_str(&mut printf, "%s\\n' \"$__gjtd_run_status\"");
    let mut lines: Vec<Vec<char>> = Vec::new();
    lines.push(chars_of("("));
    lines.push(chars_of(command));
    lines.push(chars_of(")"));
    lines.push(chars_of("__gjtd_run_status=$?"));
    lines.push(printf);
    lines.push(Vec::new());
    let r = join_chars(&lines, &chars_of("\n"));
    proof {
        let ghost views = vec_views(lines@);
        assert(views =~= seq![views[0], views[1], views[2], views[3], views[4], views[5]]);
    }
    string_of(&r)
}

} // verus!
