//! Configuration: environment lookups, account names, the files that each
//! account keeps, and the local port pools.
use crate::foreign::{default_hash, default_hash_of, opt_view};
use crate::text::{
    append_str, chars_eq, chars_of, decimal, decimal_chars, digit_char, insert_sorted_unique,
    is_ws_char, lemma_utf8_len_bounds, lex_lt, parse_unsigned, parse_unsigned_chars, rfind_char, slice, starts_with,
    strictly_sorted, string_of, trim, trim_chars, trim_start, vec_views,
};
use vstd::prelude::*;
use vstd::utf8::encode_utf8;

verus! {

pub const APP_NAME: &'static str = "gitcode-jupyter-tool";

pub const DEFAULT_ACCOUNT: &'static str = "default";

pub const DEFAULT_HUB_URL: &'static str = "https://gitcode.com/cann/cann-learning-hub";

pub const DEFAULT_REPO_URL: &'static str = "https://gitcode.com/cann/cann-learning-hub.git";

pub const DEFAULT_NOTEBOOK_PATH: &'static str = "quick_start/cann_basics";

pub const DEFAULT_SCAN_FILE_PATH: &'static str = "quick_start/cann_basics/01_ai_basics.ipynb";

pub const DEFAULT_API_URL: &'static str = "http://127.0.0.1:61000";

pub const DEFAULT_STREAM_URL: &'static str = "tcp://127.0.0.1:61001";

pub const DEFAULT_LOG: &'static str = "/tmp/jud.log";

pub const DEFAULT_LISTEN_HOST: &'static str = "127.0.0.1";

pub const DEFAULT_STREAM_HOST: &'static str = "127.0.0.1";

pub const DEFAULT_JUPYTER_CWD: &'static str = "~";

pub const PORT_POOL_START: u16 = 61000;

pub const PORT_POOL_END: u16 = 61199;

pub const DEFAULT_LISTEN_PORT: u16 = 61000;

pub const DEFAULT_STREAM_PORT: u16 = 61001;

pub const CDP_PORT_POOL_START: u16 = 61800;

pub const CDP_PORT_POOL_END: u16 = 61999;

// ---------------------------------------------------------------------------
// Environment
// ---------------------------------------------------------------------------

/// A snapshot of the process environment: the variables whose names and
/// values are valid Unicode, as `std::env::var` sees them.
pub struct Env {
    pub vars: Vec<(String, String)>,
}

pub open spec fn env_lookup(vars: Seq<(String, String)>, key: Seq<char>) -> Option<Seq<char>>
    decreases vars.len(),
{
    if vars.len() == 0 {
        None
    } else if vars[0].0@ == key {
        Some(vars[0].1@)
    } else {
        env_lookup(vars.drop_first(), key)
    }
}

pub open spec fn strs_view(keys: Seq<&str>) -> Seq<Seq<char>> {
    keys.map_values(|k: &str| k@)
}

/// The value of the first of `keys` that is set to a non-empty value.
pub open spec fn first_nonempty(env: Env, keys: Seq<Seq<char>>) -> Option<Seq<char>>
    decreases keys.len(),
{
    if keys.len() == 0 {
        None
    } else {
        match env.var(keys[0]) {
            Some(v) => if v.len() > 0 {
                Some(v)
            } else {
                first_nonempty(env, keys.drop_first())
            },
            None => first_nonempty(env, keys.drop_first()),
        }
    }
}

/// The value of the first of `keys` whose value parses as an unsigned
/// integer no larger than `max`.
pub open spec fn first_parsed(env: Env, keys: Seq<Seq<char>>, max: nat) -> Option<nat>
    decreases keys.len(),
{
    if keys.len() == 0 {
        None
    } else {
        match env.var(keys[0]) {
            Some(v) => match parse_unsigned(v, max) {
                Some(n) => Some(n),
                None => first_parsed(env, keys.drop_first(), max),
            },
            None => first_parsed(env, keys.drop_first(), max),
        }
    }
}

pub open spec fn or_default(v: Option<Seq<char>>, d: Seq<char>) -> Seq<char> {
    match v {
        Some(x) => x,
        None => d,
    }
}

/// The two strings hold the same characters.
pub fn str_eq(a: &str, b: &str) -> (r: bool)
    ensures
        r == (a@ == b@),
{
    chars_eq(&chars_of(a), &chars_of(b))
}

impl Env {
    /// The value of `key`, as `std::env::var` gives it.
    pub open spec fn var(self, key: Seq<char>) -> Option<Seq<char>> {
        env_lookup(self.vars@, key)
    }

    pub fn new(vars: Vec<(String, String)>) -> (r: Env)
        ensures
            r.vars@ == vars@,
    {
        Env { vars }
    }

    /// The value of `key`.
    pub fn get(&self, key: &str) -> (r: Option<String>)
        ensures
            opt_view(r) == self.var(key@),
    {
        let mut i: usize = 0;
        proof {
            lemma_skip_zero(self.vars@);
        }
        while i < self.vars.len()
            invariant
                i <= self.vars.len(),
                env_lookup(self.vars@, key@) == env_lookup(self.vars@.skip(i as int), key@),
            decreases self.vars.len() - i,
        {
            proof {
                assert(self.vars@.skip(i as int).drop_first() == self.vars@.skip(i + 1));
            }
            if str_eq(self.vars[i].0.as_str(), key) {
                return Some(self.vars[i].1.clone());
            }
            i += 1;
        }
        None
    }

    /// `key` is set (to any value).
    pub fn is_set(&self, key: &str) -> (r: bool)
        ensures
            r == self.var(key@) is Some,
    {
        self.get(key).is_some()
    }
}

proof fn lemma_skip_zero<A>(s: Seq<A>)
    ensures
        s.skip(0) == s,
{
    assert(s.skip(0) =~= s);
}

/// The value of the first of `keys` set to a non-empty value, else `default`.
pub fn env_string(env: &Env, keys: &[&str], default: &str) -> (r: String)
    ensures
        r@ == or_default(first_nonempty(*env, strs_view(keys@)), default@),
{
    let ghost all = strs_view(keys@);
    let mut i: usize = 0;
    proof {
        lemma_skip_zero(all);
    }
    while i < keys.len()
        invariant
            i <= keys.len(),
            all == strs_view(keys@),
            first_nonempty(*env, all) == first_nonempty(*env, all.skip(i as int)),
        decreases keys.len() - i,
    {
        proof {
            assert(all.skip(i as int).drop_first() == all.skip(i + 1));
            assert(all.skip(i as int)[0] == keys@[i as int]@);
        }
        match env.get(keys[i]) {
            Some(v) => {
                if !v.as_str().is_empty() {
                    return v;
                }
            },
            None => {},
        }
        i += 1;
    }
    default.to_owned()
}

/// The value of the first of `keys` that parses as a `u16`, else `default`.
pub fn env_u16(env: &Env, keys: &[&str], default: u16) -> (r: u16)
    ensures
        r == match first_parsed(*env, strs_view(keys@), u16::MAX as nat) {
            Some(n) => n,
            None => default as nat,
        },
{
    proof {
        lemma_first_parsed_bound(*env, strs_view(keys@), u16::MAX as nat);
    }
    match env_unsigned(env, keys, u16::MAX as u64) {
        Some(n) => n as u16,
        None => default,
    }
}

/// The value of the first of `keys` that parses as a `u64`, else `default`.
pub fn env_u64(env: &Env, keys: &[&str], default: u64) -> (r: u64)
    ensures
        r == match first_parsed(*env, strs_view(keys@), u64::MAX as nat) {
            Some(n) => n,
            None => default as nat,
        },
{
    match env_unsigned(env, keys, u64::MAX) {
        Some(n) => n,
        None => default,
    }
}

proof fn lemma_first_parsed_bound(env: Env, keys: Seq<Seq<char>>, max: nat)
    ensures
        first_parsed(env, keys, max) matches Some(n) ==> n <= max,
    decreases keys.len(),
{
    if keys.len() > 0 {
        lemma_first_parsed_bound(env, keys.drop_first(), max);
    }
}

fn env_unsigned(env: &Env, keys: &[&str], max: u64) -> (r: Option<u64>)
    ensures
        r matches Some(n) ==> first_parsed(*env, strs_view(keys@), max as nat) == Some(n as nat),
        r is None ==> first_parsed(*env, strs_view(keys@), max as nat) is None,
{
    let ghost all = strs_view(keys@);
    let mut i: usize = 0;
    proof {
        lemma_skip_zero(all);
    }
    while i < keys.len()
        invariant
            i <= keys.len(),
            all == strs_view(keys@),
            first_parsed(*env, all, max as nat) == first_parsed(*env, all.skip(i as int), max as nat),
        decreases keys.len() - i,
    {
        proof {
            assert(all.skip(i as int).drop_first() == all.skip(i + 1));
            assert(all.skip(i as int)[0] == keys@[i as int]@);
        }
        match env.get(keys[i]) {
            Some(v) => {
                match parse_unsigned_chars(&chars_of(v.as_str()), max) {
                    Some(n) => {
                        return Some(n);
                    },
                    None => {},
                }
            },
            None => {},
        }
        i += 1;
    }
    None
}

// ---------------------------------------------------------------------------
// Paths
// ---------------------------------------------------------------------------

/// `PathBuf::join` on Unix: an absolute `part` replaces `base`; otherwise a
/// `/` is put between them unless `base` is empty or already ends in `/`.
pub open spec fn path_join(base: Seq<char>, part: Seq<char>) -> Seq<char> {
    if starts_with(part, "/"@) {
        part
    } else if base.len() == 0 || base.last() == '/' {
        base + part
    } else {
        base + "/"@ + part
    }
}

/// `base` joined with `part`, as `PathBuf::join` does on Unix.
pub fn join_path(base: &str, part: &str) -> (r: String)
    ensures
        r@ == path_join(base@, part@),
{
    proof {
        reveal_strlit("/");
    }
    let p = chars_of(part);
    if p.len() > 0 && p[0] == '/' {
        assert(p@.take(1) == seq!['/']);
        assert("/"@ == seq!['/']);
        return part.to_owned();
    }
    assert(!starts_with(p@, "/"@)) by {
        if starts_with(p@, "/"@) {
            assert(p@.take(1)[0] == '/');
        }
    }
    let b = chars_of(base);
    let mut r = b.clone();
    if !(b.len() == 0 || b[b.len() - 1] == '/') {
        r.push('/');
        assert(r@ == b@ + "/"@);
    }
    let mut out = r;
    crate::text::append(&mut out, &p);
    string_of(&out)
}

/// `~` and `~/...` taken relative to `home`; any other path as it is.
pub open spec fn tilde_expanded(path: Seq<char>, home: Seq<char>) -> Seq<char> {
    if path == "~"@ {
        home
    } else if starts_with(path, "~/"@) {
        path_join(home, path.skip(2))
    } else {
        path
    }
}

/// Expands a leading `~` to the home directory `home`.
pub fn expand_tilde(path: &str, home: &str) -> (r: String)
    ensures
        r@ == tilde_expanded(path@, home@),
{
    proof {
        reveal_strlit("~");
        reveal_strlit("~/");
    }
    let p = chars_of(path);
    if p.len() == 1 && p[0] == '~' {
        assert(p@ == "~"@);
        return home.to_owned();
    }
    assert(p@ != "~"@);
    if p.len() >= 2 && p[0] == '~' && p[1] == '/' {
        assert(p@.take(2) == "~/"@);
        let rest = slice(&p, 2, p.len());
        assert(rest@ == p@.skip(2));
        return join_path(home, string_of(&rest).as_str());
    }
    assert(!starts_with(p@, "~/"@)) by {
        if starts_with(p@, "~/"@) {
            assert(p@.take(2)[0] == '~');
            assert(p@.take(2)[1] == '/');
        }
    }
    path.to_owned()
}

/// The home directory: `HOME` when set and non-empty, else the passwd entry's
/// directory when known and non-empty, else `/`.
pub open spec fn home_of(env: Env, passwd_home: Option<Seq<char>>) -> Seq<char> {
    match env.var("HOME"@) {
        Some(h) if h.len() > 0 => h,
        _ => match passwd_home {
            Some(p) if p.len() > 0 => p,
            _ => "/"@,
        },
    }
}

/// The home directory, given the environment and the directory that the
/// passwd database gives for the current user.
pub fn home_dir(env: &Env, passwd_home: Option<&str>) -> (r: String)
    ensures
        r@ == home_of(*env, match passwd_home {
            Some(p) => Some(p@),
            None => None,
        }),
{
    match env.get("HOME") {
        Some(h) => {
            if !h.as_str().is_empty() {
                return h;
            }
        },
        None => {},
    }
    match passwd_home {
        Some(p) => {
            if !p.is_empty() {
                return p.to_owned();
            }
        },
        None => {},
    }
    "/".to_owned()
}

/// Where configuration lives: `JUD_CONFIG_DIR`, else
/// `$XDG_CONFIG_HOME/gitcode-jupyter-tool`, else
/// `~/.config/gitcode-jupyter-tool`.
pub open spec fn config_dir_of(env: Env, home: Seq<char>) -> Seq<char> {
    match env.var("JUD_CONFIG_DIR"@) {
        Some(v) if v.len() > 0 => v,
        _ => match env.var("XDG_CONFIG_HOME"@) {
            Some(x) if x.len() > 0 => path_join(x, APP_NAME@),
            _ => path_join(path_join(home, ".config"@), APP_NAME@),
        },
    }
}

pub fn default_config_dir(env: &Env, home: &str) -> (r: String)
    ensures
        r@ == config_dir_of(*env, home@),
{
    match env.get("JUD_CONFIG_DIR") {
        Some(v) => if !v.as_str().is_empty() {
            return v;
        },
        None => {},
    }
    match env.get("XDG_CONFIG_HOME") {
        Some(x) => if !x.as_str().is_empty() {
            return join_path(x.as_str(), APP_NAME);
        },
        None => {},
    }
    join_path(join_path(home, ".config").as_str(), APP_NAME)
}

/// Where caches live: `JUD_CACHE_DIR`, else
/// `$XDG_CACHE_HOME/gitcode-jupyter-tool`, else
/// `~/.cache/gitcode-jupyter-tool`.
pub open spec fn cache_dir_of(env: Env, home: Seq<char>) -> Seq<char> {
    match env.var("JUD_CACHE_DIR"@) {
        Some(v) if v.len() > 0 => v,
        _ => match env.var("XDG_CACHE_HOME"@) {
            Some(x) if x.len() > 0 => path_join(x, APP_NAME@),
            _ => path_join(path_join(home, ".cache"@), APP_NAME@),
        },
    }
}

/// `base` joined with the relative name `name`: a `/` between them unless
/// `base` is empty or already ends in one.
pub open spec fn joined(base: Seq<char>, name: Seq<char>) -> Seq<char> {
    if base.len() == 0 || base.last() == '/' {
        base + name
    } else {
        base + "/"@ + name
    }
}

/// Where the cache and configuration directories are: `JUD_CACHE_DIR`
/// (`JUD_CONFIG_DIR`) as it is when set and not empty; else the
/// `gitcode-jupyter-tool` directory inside `XDG_CACHE_HOME`
/// (`XDG_CONFIG_HOME`) when that is set and not empty; else
/// `~/.cache/gitcode-jupyter-tool` (`~/.config/gitcode-jupyter-tool`) under
/// the home directory. The tool's own directory is never the shared XDG
/// root itself.
pub proof fn lemma_directories_are_the_tools_own(env: Env, home: Seq<char>)
    ensures
        nonempty_var(env, "JUD_CACHE_DIR"@) matches Some(v) ==> cache_dir_of(env, home) == v,
        nonempty_var(env, "JUD_CACHE_DIR"@) is None ==> match nonempty_var(env, "XDG_CACHE_HOME"@) {
            Some(x) => cache_dir_of(env, home) == joined(x, "gitcode-jupyter-tool"@),
            None => cache_dir_of(env, home) == joined(home, ".cache/gitcode-jupyter-tool"@),
        },
        nonempty_var(env, "JUD_CONFIG_DIR"@) matches Some(v) ==> config_dir_of(env, home) == v,
        nonempty_var(env, "JUD_CONFIG_DIR"@) is None ==> match nonempty_var(
            env,
            "XDG_CONFIG_HOME"@,
        ) {
            Some(x) => config_dir_of(env, home) == joined(x, "gitcode-jupyter-tool"@),
            None => config_dir_of(env, home) == joined(home, ".config/gitcode-jupyter-tool"@),
        },
{
    reveal_strlit("gitcode-jupyter-tool");
    reveal_strlit(".cache");
    reveal_strlit(".config");
    reveal_strlit(".cache/gitcode-jupyter-tool");
    reveal_strlit(".config/gitcode-jupyter-tool");
    reveal_strlit("/");
    let app = "gitcode-jupyter-tool"@;
    assert(APP_NAME@ == app);
    lemma_join_relative(home, ".cache"@);
    lemma_join_relative(home, ".config"@);
    let hc = path_join(home, ".cache"@);
    let hf = path_join(home, ".config"@);
    lemma_join_relative(hc, app);
    lemma_join_relative(hf, app);
    assert(hc.last() == 'e' && hf.last() == 'g');
    assert(".cache/gitcode-jupyter-tool"@ =~= ".cache"@ + "/"@ + app);
    assert(".config/gitcode-jupyter-tool"@ =~= ".config"@ + "/"@ + app);
    assert(path_join(hc, app) =~= joined(home, ".cache/gitcode-jupyter-tool"@));
    assert(path_join(hf, app) =~= joined(home, ".config/gitcode-jupyter-tool"@));
    match nonempty_var(env, "XDG_CACHE_HOME"@) {
        Some(x) => {
            lemma_join_relative(x, app);
        },
        None => {},
    }
    match nonempty_var(env, "XDG_CONFIG_HOME"@) {
        Some(x) => {
            lemma_join_relative(x, app);
        },
        None => {},
    }
}

pub fn default_cache_dir(env: &Env, home: &str) -> (r: String)
    ensures
        r@ == cache_dir_of(*env, home@),
{
    match env.get("JUD_CACHE_DIR") {
        Some(v) => if !v.as_str().is_empty() {
            return v;
        },
        None => {},
    }
    match env.get("XDG_CACHE_HOME") {
        Some(x) => if !x.as_str().is_empty() {
            return join_path(x.as_str(), APP_NAME);
        },
        None => {},
    }
    join_path(join_path(home, ".cache").as_str(), APP_NAME)
}

// ---------------------------------------------------------------------------
// Accounts
// ---------------------------------------------------------------------------

/// Why an account name was refused.
#[derive(Clone, Copy, Debug, PartialEq, Eq, Structural)]
pub enum AccountNameError {
    /// Empty, `.`, `..`, or longer than 64 bytes.
    Invalid,
    /// Holds a character other than ASCII letters, digits, `-`, `_`, `.`.
    BadCharacters,
}

pub open spec fn is_account_char(c: char) -> bool {
    ||| ('A' <= c && c <= 'Z')
    ||| ('a' <= c && c <= 'z')
    ||| ('0' <= c && c <= '9')
    ||| c == '-'
    ||| c == '_'
    ||| c == '.'
}

/// The checked account name: `value` trimmed, refused when empty, `.`, `..`,
/// longer than 64 bytes, or holding a character outside ASCII letters,
/// digits, `-`, `_` and `.`.
pub open spec fn account_name(value: Seq<char>) -> Result<Seq<char>, AccountNameError> {
    let v = trim(value);
    if v.len() == 0 || v == "."@ || v == ".."@ || encode_utf8(v).len() > 64 {
        Err(AccountNameError::Invalid)
    } else if !(forall|i: int| 0 <= i < v.len() ==> is_account_char(#[trigger] v[i])) {
        Err(AccountNameError::BadCharacters)
    } else {
        Ok(v)
    }
}

pub fn is_account_char_exec(c: char) -> (r: bool)
    ensures
        r == is_account_char(c),
{
    ('A' <= c && c <= 'Z') || ('a' <= c && c <= 'z') || ('0' <= c && c <= '9') || c == '-' || c
        == '_' || c == '.'
}

/// Checks an account name and returns it trimmed.
pub fn validate_account_name(value: &str) -> (r: Result<String, AccountNameError>)
    ensures
        match account_name(value@) {
            Ok(v) => r matches Ok(s) && s@ == v,
            Err(e) => r == Err::<String, AccountNameError>(e),
        },
{
    let t = trim_chars(&chars_of(value));
    let ts = string_of(&t);
    proof {
        lemma_utf8_len_bounds(t@);
    }
    let byte_len = if t.len() > 64 { 65 } else { ts.as_str().len() };
    let dot = str_eq(ts.as_str(), ".");
    let dotdot = str_eq(ts.as_str(), "..");
    if t.len() == 0 || dot || dotdot || byte_len > 64 {
        return Err(AccountNameError::Invalid);
    }
    let mut i: usize = 0;
    while i < t.len()
        invariant
            i <= t.len(),
            t@ == trim(value@),
            !(t@.len() == 0 || t@ == "."@ || t@ == ".."@ || encode_utf8(t@).len() > 64),
            forall|j: int| 0 <= j < i ==> is_account_char(#[trigger] t@[j]),
        decreases t.len() - i,
    {
        if !is_account_char_exec(t[i]) {
            assert(!is_account_char(t@[i as int]));
            return Err(AccountNameError::BadCharacters);
        }
        i += 1;
    }
    Ok(ts)
}

/// The account named by `JUD_ACCOUNT`, else `default`.
pub fn default_account(env: &Env) -> (r: String)
    ensures
        r@ == or_default(env.var("JUD_ACCOUNT"@), DEFAULT_ACCOUNT@),
{
    match env.get("JUD_ACCOUNT") {
        Some(v) => v,
        None => DEFAULT_ACCOUNT.to_owned(),
    }
}

pub open spec fn accounts_dir_of(config_dir: Seq<char>) -> Seq<char> {
    path_join(config_dir, "accounts"@)
}

/// The auth cache of an account: `auth.json` in the configuration directory
/// for the default account, else `accounts/NAME.json` there.
pub open spec fn auth_cache_of(account: Seq<char>, config_dir: Seq<char>) -> Result<
    Seq<char>,
    AccountNameError,
> {
    match account_name(account) {
        Ok(a) => Ok(
            if a == DEFAULT_ACCOUNT@ {
                path_join(config_dir, "auth.json"@)
            } else {
                path_join(accounts_dir_of(config_dir), a + ".json"@)
            },
        ),
        Err(e) => Err(e),
    }
}

/// The notebook state file of an account: `state.json` in the configuration
/// directory for the default account, else `accounts/NAME/state.json` there.
pub open spec fn state_file_of(account: Seq<char>, config_dir: Seq<char>) -> Result<
    Seq<char>,
    AccountNameError,
> {
    match account_name(account) {
        Ok(a) => Ok(
            if a == DEFAULT_ACCOUNT@ {
                path_join(config_dir, "state.json"@)
            } else {
                path_join(path_join(accounts_dir_of(config_dir), a), "state.json"@)
            },
        ),
        Err(e) => Err(e),
    }
}

/// The Chrome profile of an account: `chrome-profile` in the cache directory
/// for the default account, else `accounts/NAME/chrome-profile` there.
pub open spec fn chrome_profile_of(account: Seq<char>, cache_dir: Seq<char>) -> Result<
    Seq<char>,
    AccountNameError,
> {
    match account_name(account) {
        Ok(a) => Ok(
            if a == DEFAULT_ACCOUNT@ {
                path_join(cache_dir, "chrome-profile"@)
            } else {
                path_join(path_join(path_join(cache_dir, "accounts"@), a), "chrome-profile"@)
            },
        ),
        Err(e) => Err(e),
    }
}

/// What `path_join` puts before a relative part: `base`, with a `/` unless
/// it is empty or already ends in one.
pub open spec fn join_prefix(base: Seq<char>) -> Seq<char> {
    if base.len() == 0 || base.last() == '/' {
        base
    } else {
        base + "/"@
    }
}

proof fn lemma_join_relative(base: Seq<char>, part: Seq<char>)
    requires
        part.len() > 0,
        part[0] != '/',
    ensures
        path_join(base, part) == join_prefix(base) + part,
{
    reveal_strlit("/");
    assert(part.take(1)[0] != '/');
}

proof fn lemma_cancel(pre: Seq<char>, x: Seq<char>, y: Seq<char>, suf: Seq<char>)
    requires
        pre + x + suf == pre + y + suf,
    ensures
        x == y,
{
    let l = pre + x + suf;
    let r = pre + y + suf;
    assert(l.len() == r.len());
    assert(l.len() == pre.len() + x.len() + suf.len());
    assert(r.len() == pre.len() + y.len() + suf.len());
    assert(x.len() == y.len());
    assert(l.subrange(pre.len() as int, (pre.len() + x.len()) as int) =~= x);
    assert(r.subrange(pre.len() as int, (pre.len() + y.len()) as int) =~= y);
}

/// A checked account name is not empty and holds no `/`.
proof fn lemma_account_name_plain(value: Seq<char>)
    requires
        account_name(value) is Ok,
    ensures
        ({
            let v = trim(value);
            &&& account_name(value) == Ok::<Seq<char>, AccountNameError>(v)
            &&& v.len() > 0
            &&& forall|i: int| 0 <= i < v.len() ==> v[i] != '/'
        }),
{
    let v = trim(value);
    assert forall|i: int| 0 <= i < v.len() implies v[i] != '/' by {
        assert(is_account_char(v[i]));
    }
}

/// Accounts are independent: two accounts with different names never share
/// an auth cache, a notebook state file or a Chrome profile.
pub proof fn lemma_accounts_independent(
    a: Seq<char>,
    b: Seq<char>,
    config_dir: Seq<char>,
    cache_dir: Seq<char>,
)
    requires
        account_name(a) is Ok,
        account_name(b) is Ok,
        account_name(a) != account_name(b),
    ensures
        auth_cache_of(a, config_dir) != auth_cache_of(b, config_dir),
        state_file_of(a, config_dir) != state_file_of(b, config_dir),
        chrome_profile_of(a, cache_dir) != chrome_profile_of(b, cache_dir),
{
    lemma_account_name_plain(a);
    lemma_account_name_plain(b);
    if trim(b) != DEFAULT_ACCOUNT@ {
        lemma_distinct_account_paths(trim(a), trim(b), config_dir, cache_dir);
    } else {
        lemma_distinct_account_paths(trim(b), trim(a), config_dir, cache_dir);
    }
}

proof fn lemma_distinct_account_paths(x: Seq<char>, y: Seq<char>, config_dir: Seq<char>, cache_dir: Seq<char>)
    requires
        x != y,
        y != DEFAULT_ACCOUNT@,
        x.len() > 0,
        y.len() > 0,
        forall|i: int| 0 <= i < x.len() ==> x[i] != '/',
        forall|i: int| 0 <= i < y.len() ==> y[i] != '/',
    ensures
        ({
            let a_dir = path_join(config_dir, "accounts"@);
            let c_dir = path_join(cache_dir, "accounts"@);
            let auth_x = if x == DEFAULT_ACCOUNT@ {
                path_join(config_dir, "auth.json"@)
            } else {
                path_join(a_dir, x + ".json"@)
            };
            let state_x = if x == DEFAULT_ACCOUNT@ {
                path_join(config_dir, "state.json"@)
            } else {
                path_join(path_join(a_dir, x), "state.json"@)
            };
            let profile_x = if x == DEFAULT_ACCOUNT@ {
                path_join(cache_dir, "chrome-profile"@)
            } else {
                path_join(path_join(c_dir, x), "chrome-profile"@)
            };
            &&& auth_x != path_join(a_dir, y + ".json"@)
            &&& state_x != path_join(path_join(a_dir, y), "state.json"@)
            &&& profile_x != path_join(path_join(c_dir, y), "chrome-profile"@)
        }),
{
    reveal_strlit("accounts");
    reveal_strlit(".json");
    reveal_strlit("auth.json");
    reveal_strlit("state.json");
    reveal_strlit("chrome-profile");
    reveal_strlit("/");
    let a_dir = path_join(config_dir, "accounts"@);
    let c_dir = path_join(cache_dir, "accounts"@);
    lemma_join_relative(config_dir, "accounts"@);
    lemma_join_relative(cache_dir, "accounts"@);
    assert(a_dir.last() == 's' && c_dir.last() == 's');
    let ax = path_join(a_dir, x);
    let ay = path_join(a_dir, y);
    let cx = path_join(c_dir, x);
    let cy = path_join(c_dir, y);
    lemma_join_relative(a_dir, x);
    lemma_join_relative(a_dir, y);
    lemma_join_relative(c_dir, x);
    lemma_join_relative(c_dir, y);
    lemma_join_relative(a_dir, x + ".json"@);
    lemma_join_relative(a_dir, y + ".json"@);
    lemma_join_relative(ax, "state.json"@);
    lemma_join_relative(ay, "state.json"@);
    lemma_join_relative(cx, "chrome-profile"@);
    lemma_join_relative(cy, "chrome-profile"@);
    assert(ax.last() == x.last() && ay.last() == y.last());
    assert(cx.last() == x.last() && cy.last() == y.last());
    assert(x.last() != '/' && y.last() != '/');
    let pa = join_prefix(a_dir);
    let pc = join_prefix(c_dir);
    assert(pa == a_dir + "/"@ && pc == c_dir + "/"@);
    if x == DEFAULT_ACCOUNT@ {
        lemma_join_relative(config_dir, "auth.json"@);
        lemma_join_relative(config_dir, "state.json"@);
        lemma_join_relative(cache_dir, "chrome-profile"@);
        let p = join_prefix(config_dir);
        let q = join_prefix(cache_dir);
        let k = p.len() as int;
        let m = q.len() as int;
        assert(path_join(config_dir, "auth.json"@)[k + 1] == 'u');
        assert(path_join(a_dir, y + ".json"@)[k + 1] == 'c');
        assert(path_join(config_dir, "state.json"@)[k] == 's');
        assert(path_join(ay, "state.json"@)[k] == 'a');
        assert(path_join(cache_dir, "chrome-profile"@)[m] == 'c');
        assert(path_join(cy, "chrome-profile"@)[m] == 'a');
    } else {
        if path_join(a_dir, x + ".json"@) == path_join(a_dir, y + ".json"@) {
            assert(pa + (x + ".json"@) =~= pa + x + ".json"@);
            assert(pa + (y + ".json"@) =~= pa + y + ".json"@);
            lemma_cancel(pa, x, y, ".json"@);
        }
        if path_join(ax, "state.json"@) == path_join(ay, "state.json"@) {
            assert(pa + x + "/"@ + "state.json"@ == pa + x + ("/"@ + "state.json"@));
            assert(pa + y + "/"@ + "state.json"@ == pa + y + ("/"@ + "state.json"@));
            lemma_cancel(pa, x, y, "/"@ + "state.json"@);
        }
        if path_join(cx, "chrome-profile"@) == path_join(cy, "chrome-profile"@) {
            assert(pc + x + "/"@ + "chrome-profile"@ == pc + x + ("/"@ + "chrome-profile"@));
            assert(pc + y + "/"@ + "chrome-profile"@ == pc + y + ("/"@ + "chrome-profile"@));
            lemma_cancel(pc, x, y, "/"@ + "chrome-profile"@);
        }
    }
}

pub open spec fn result_view(r: Result<String, AccountNameError>) -> Result<
    Seq<char>,
    AccountNameError,
> {
    match r {
        Ok(s) => Ok(s@),
        Err(e) => Err(e),
    }
}

pub fn accounts_dir(config_dir: &str) -> (r: String)
    ensures
        r@ == accounts_dir_of(config_dir@),
{
    join_path(config_dir, "accounts")
}

pub fn account_auth_cache(account: &str, config_dir: &str) -> (r: Result<String, AccountNameError>)
    ensures
        result_view(r) == auth_cache_of(account@, config_dir@),
{
    let a = validate_account_name(account)?;
    if str_eq(a.as_str(), DEFAULT_ACCOUNT) {
        Ok(join_path(config_dir, "auth.json"))
    } else {
        let mut name = chars_of(a.as_str());
        append_str(&mut name, ".json");
        Ok(join_path(accounts_dir(config_dir).as_str(), string_of(&name).as_str()))
    }
}

pub fn account_state_file(account: &str, config_dir: &str) -> (r: Result<String, AccountNameError>)
    ensures
        result_view(r) == state_file_of(account@, config_dir@),
{
    let a = validate_account_name(account)?;
    if str_eq(a.as_str(), DEFAULT_ACCOUNT) {
        Ok(join_path(config_dir, "state.json"))
    } else {
        let dir = join_path(accounts_dir(config_dir).as_str(), a.as_str());
        Ok(join_path(dir.as_str(), "state.json"))
    }
}

pub fn account_chrome_profile(account: &str, cache_dir: &str) -> (r: Result<
    String,
    AccountNameError,
>)
    ensures
        result_view(r) == chrome_profile_of(account@, cache_dir@),
{
    let a = validate_account_name(account)?;
    if str_eq(a.as_str(), DEFAULT_ACCOUNT) {
        Ok(join_path(cache_dir, "chrome-profile"))
    } else {
        let dir = join_path(join_path(cache_dir, "accounts").as_str(), a.as_str());
        Ok(join_path(dir.as_str(), "chrome-profile"))
    }
}

pub open spec fn ok_or(r: Result<Seq<char>, AccountNameError>, d: Seq<char>) -> Seq<char> {
    match r {
        Ok(v) => v,
        Err(_) => d,
    }
}

/// The Chrome profile of the account that the environment selects.
pub fn default_chrome_profile(env: &Env, home: &str) -> (r: String)
    ensures
        r@ == ok_or(
            chrome_profile_of(
                or_default(env.var("JUD_ACCOUNT"@), DEFAULT_ACCOUNT@),
                cache_dir_of(*env, home@),
            ),
            path_join(cache_dir_of(*env, home@), "chrome-profile"@),
        ),
{
    let cache = default_cache_dir(env, home);
    match account_chrome_profile(default_account(env).as_str(), cache.as_str()) {
        Ok(p) => p,
        Err(_) => join_path(cache.as_str(), "chrome-profile"),
    }
}

/// The auth cache of the account that the environment selects.
pub fn default_auth_cache(env: &Env, home: &str) -> (r: String)
    ensures
        r@ == ok_or(
            auth_cache_of(
                or_default(env.var("JUD_ACCOUNT"@), DEFAULT_ACCOUNT@),
                config_dir_of(*env, home@),
            ),
            path_join(config_dir_of(*env, home@), "auth.json"@),
        ),
{
    let config = default_config_dir(env, home);
    match account_auth_cache(default_account(env).as_str(), config.as_str()) {
        Ok(p) => p,
        Err(_) => join_path(config.as_str(), "auth.json"),
    }
}

/// The notebook state file of the account that the environment selects.
pub fn default_state_file(env: &Env, home: &str) -> (r: String)
    ensures
        r@ == ok_or(
            state_file_of(
                or_default(env.var("JUD_ACCOUNT"@), DEFAULT_ACCOUNT@),
                config_dir_of(*env, home@),
            ),
            path_join(config_dir_of(*env, home@), "state.json"@),
        ),
{
    let config = default_config_dir(env, home);
    match account_state_file(default_account(env).as_str(), config.as_str()) {
        Ok(p) => p,
        Err(_) => join_path(config.as_str(), "state.json"),
    }
}

/// The file that records an account's API and stream ports.
pub fn endpoint_file(account: &str, config_dir: &str) -> (r: String)
    ensures
        r@ == path_join(path_join(accounts_dir_of(config_dir@), account@), "ports"@),
{
    let dir = join_path(accounts_dir(config_dir).as_str(), account);
    join_path(dir.as_str(), "ports")
}

/// The file that records an account's Chrome DevTools port.
pub fn cdp_port_file(account: &str, config_dir: &str) -> (r: String)
    ensures
        r@ == path_join(path_join(accounts_dir_of(config_dir@), account@), "cdp-port"@),
{
    let dir = join_path(accounts_dir(config_dir).as_str(), account);
    join_path(dir.as_str(), "cdp-port")
}

// ---------------------------------------------------------------------------
// Port pools
// ---------------------------------------------------------------------------

/// The pool `start..=end` walked from the offset `hash % len`, wrapping
/// around: port `i` is `start + (hash % len + i) % len`.
pub open spec fn port_order(start: u16, end: u16, hash: u64) -> Seq<u16>
    recommends
        start <= end,
{
    let len = (end - start + 1) as nat;
    Seq::new(len, |i: int| (start + (((hash % (len as u64)) as nat + i) % (len as int))) as u16)
}

pub open spec fn in_pool(p: u16, start: u16, end: u16) -> bool {
    start <= p <= end
}

proof fn lemma_small_mod(x: int, len: int)
    requires
        0 <= x < 2 * len,
        len > 0,
    ensures
        x % len == (if x < len {
            x
        } else {
            x - len
        }),
{
    if x < len {
        vstd::arithmetic::div_mod::lemma_small_mod(x as nat, len as nat);
    } else {
        vstd::arithmetic::div_mod::lemma_small_mod((x - len) as nat, len as nat);
        vstd::arithmetic::div_mod::lemma_mod_sub_multiples_vanish(x, len);
    }
}

/// The pool `start..=end` in the order that starts at `hash % len`.
pub fn ordered_ports_from(start: u16, end: u16, hash: u64) -> (r: Vec<u16>)
    requires
        start <= end,
    ensures
        r@ == port_order(start, end, hash),
{
    let len: u64 = (end - start) as u64 + 1;
    let offset = hash % len;
    let mut r: Vec<u16> = Vec::new();
    let mut i: u64 = 0;
    while i < len
        invariant
            len == end - start + 1,
            offset == hash % len,
            offset < len,
            i <= len,
            r@ == port_order(start, end, hash).take(i as int),
        decreases len - i,
    {
        proof {
            lemma_small_mod((offset + i) as int, len as int);
        }
        let v = (offset + i) % len;
        let port = (start as u64 + v) as u16;
        r.push(port);
        i += 1;
        assert(r@ =~= port_order(start, end, hash).take(i as int));
    }
    assert(port_order(start, end, hash).take(len as int) =~= port_order(start, end, hash));
    r
}

/// The pool `start..=end` in an order that depends on the account name:
/// it starts at an offset given by hashing the name and wraps around.
pub fn ordered_ports(start: u16, end: u16, account: &str) -> (r: Vec<u16>)
    requires
        start <= end,
    ensures
        r@ == port_order(start, end, default_hash_of(account@)),
{
    ordered_ports_from(start, end, default_hash(account))
}

/// Law: whatever the hash, the ordered pool holds every port of
/// `start..=end` exactly once and nothing else.
pub proof fn lemma_port_order_is_permutation(start: u16, end: u16, hash: u64)
    requires
        start <= end,
    ensures
        port_order(start, end, hash).len() == end - start + 1,
        port_order(start, end, hash).no_duplicates(),
        forall|p: u16| #[trigger] port_order(start, end, hash).contains(p) <==> in_pool(p, start, end),
{
    let len = (end - start + 1) as int;
    let off = (hash % (len as u64)) as int;
    let s = port_order(start, end, hash);
    assert forall|i: int| 0 <= i < len implies #[trigger] s[i] == start + (if off + i < len {
        off + i
    } else {
        off + i - len
    }) by {
        lemma_small_mod(off + i, len);
    }
    assert forall|i: int, j: int| 0 <= i < s.len() && 0 <= j < s.len() && i != j implies s[i]
        != s[j] by {}
    assert forall|p: u16| s.contains(p) <==> in_pool(p, start, end) by {
        if in_pool(p, start, end) {
            let k = p - start;
            let i = if k >= off {
                k - off
            } else {
                k - off + len
            };
            assert(s[i] == p);
        }
    }
}

/// In the ordered pool each port is followed by the next one, and the last
/// port of the pool by the first.
pub proof fn lemma_port_order_steps(start: u16, end: u16, hash: u64)
    requires
        start <= end,
    ensures
        forall|i: int|
            0 <= i < port_order(start, end, hash).len() - 1 ==> #[trigger] port_order(
                start,
                end,
                hash,
            )[i + 1] == (if port_order(start, end, hash)[i] == end {
                start as int
            } else {
                port_order(start, end, hash)[i] + 1
            }),
{
    let len = (end - start + 1) as int;
    let off = (hash % (len as u64)) as int;
    let s = port_order(start, end, hash);
    assert forall|i: int| 0 <= i < len - 1 implies #[trigger] s[i + 1] == (if s[i] == end {
        start as int
    } else {
        s[i] + 1
    }) by {
        lemma_small_mod(off + i, len);
        lemma_small_mod(off + i + 1, len);
    }
}

/// The port written in a port file: its trimmed content as a `u16` inside
/// `lo..=hi`.
pub open spec fn port_in_text(contents: Seq<char>, lo: u16, hi: u16) -> Option<u16> {
    match parse_unsigned(trim(contents), u16::MAX as nat) {
        Some(n) => if lo <= n <= hi {
            Some(n as u16)
        } else {
            None
        },
        None => None,
    }
}

/// Reads the port of a port file's content, if it lies in `lo..=hi`.
pub fn port_from_text(contents: &str, lo: u16, hi: u16) -> (r: Option<u16>)
    ensures
        r == port_in_text(contents@, lo, hi),
{
    let t = trim_chars(&chars_of(contents));
    match parse_unsigned_chars(&t, u16::MAX as u64) {
        Some(n) => if lo as u64 <= n && n <= hi as u64 {
            Some(n as u16)
        } else {
            None
        },
        None => None,
    }
}

/// The text of a port file: the port in decimal, then a newline.
pub open spec fn port_file_text(port: u16) -> Seq<char> {
    decimal(port as nat) + "\n"@
}

/// The text written to a port file; reading it back gives the port again
/// for any pool that holds it.
pub fn port_file_contents(port: u16) -> (r: String)
    ensures
        r@ == port_file_text(port),
        forall|lo: u16, hi: u16| lo <= port <= hi ==> #[trigger] port_in_text(r@, lo, hi) == Some(port),
{
    let mut v = decimal_chars(port as u64);
    append_str(&mut v, "\n");
    let r = string_of(&v);
    proof {
        assert forall|lo: u16, hi: u16| lo <= port <= hi implies #[trigger] port_in_text(r@, lo, hi)
            == Some(port) by {
            lemma_port_file_round_trip(port, lo, hi);
        }
    }
    r
}

/// A port file gives back the port written in it, when that lies in the
/// pool it is read for.
pub proof fn lemma_port_file_round_trip(port: u16, lo: u16, hi: u16)
    requires
        lo <= port <= hi,
    ensures
        port_in_text(port_file_text(port), lo, hi) == Some(port),
{
    reveal_strlit("\n");
    let d = decimal(port as nat);
    crate::text::lemma_decimal_digits(port as nat);
    lemma_trim_digits_line(d, "\n"@);
}

/// Trimming `d` followed by whitespace leaves `d`, for a run of digits `d`.
proof fn lemma_trim_digits_line(d: Seq<char>, tail: Seq<char>)
    requires
        d.len() > 0,
        crate::text::all_digits(d),
        forall|i: int| 0 <= i < tail.len() ==> crate::text::is_ws(#[trigger] tail[i]),
    ensures
        trim(d + tail) == d,
    decreases tail.len(),
{
    assert(crate::text::is_digit(d[0]));
    assert((d + tail)[0] == d[0]);
    assert(trim_start(d + tail) == d + tail);
    lemma_trim_end_ws(d, tail);
}

proof fn lemma_trim_end_ws(d: Seq<char>, tail: Seq<char>)
    requires
        d.len() > 0,
        crate::text::all_digits(d),
        forall|i: int| 0 <= i < tail.len() ==> crate::text::is_ws(#[trigger] tail[i]),
    ensures
        crate::text::trim_end(d + tail) == d,
    decreases tail.len(),
{
    if tail.len() == 0 {
        assert(d + tail =~= d);
        assert(crate::text::is_digit(d.last()));
    } else {
        assert(crate::text::is_ws(tail.last()));
        assert((d + tail).drop_last() =~= d + tail.drop_last());
        lemma_trim_end_ws(d, tail.drop_last());
    }
}

/// The text of an endpoint file: the API port and the stream port in
/// decimal, a space between them, then a newline.
pub open spec fn pair_file_text(api: u16, stream: u16) -> Seq<char> {
    decimal(api as nat) + " "@ + decimal(stream as nat) + "\n"@
}

/// The text written to an endpoint file; reading it back gives the same
/// pair again for any pool that holds both ports, when they differ.
pub fn pair_file_contents(api: u16, stream: u16) -> (r: String)
    ensures
        r@ == pair_file_text(api, stream),
        forall|lo: u16, hi: u16|
            api != stream && lo <= api <= hi && lo <= stream <= hi ==> #[trigger] pair_in_text(
                r@,
                lo,
                hi,
            ) == Some((api, stream)),
{
    let mut v = decimal_chars(api as u64);
    append_str(&mut v, " ");
    let s = decimal_chars(stream as u64);
    append_str(&mut v, string_of(&s).as_str());
    append_str(&mut v, "\n");
    let r = string_of(&v);
    proof {
        assert forall|lo: u16, hi: u16|
            api != stream && lo <= api <= hi && lo <= stream <= hi implies #[trigger] pair_in_text(
            r@,
            lo,
            hi,
        ) == Some((api, stream)) by {
            lemma_pair_file_round_trip(api, stream, lo, hi);
        }
    }
    r
}

/// The leading word of digits `d` followed by whitespace is `d`.
proof fn lemma_leading_digits(d: Seq<char>, rest: Seq<char>)
    requires
        crate::text::all_digits(d),
        rest.len() > 0,
        crate::text::is_ws(rest[0]),
    ensures
        leading_word(d + rest) == d,
    decreases d.len(),
{
    if d.len() == 0 {
        assert(d + rest =~= rest);
    } else {
        assert(crate::text::is_digit(d[0]));
        assert((d + rest)[0] == d[0]);
        assert((d + rest).drop_first() =~= d.drop_first() + rest);
        lemma_leading_digits(d.drop_first(), rest);
        assert(seq![d[0]] + d.drop_first() =~= d);
    }
}

/// An endpoint file gives back the two ports written in it, when they
/// differ and lie in the pool it is read for.
pub proof fn lemma_pair_file_round_trip(api: u16, stream: u16, lo: u16, hi: u16)
    requires
        api != stream,
        lo <= api <= hi,
        lo <= stream <= hi,
    ensures
        pair_in_text(pair_file_text(api, stream), lo, hi) == Some((api, stream)),
{
    reveal_strlit("\n");
    reveal_strlit(" ");
    let a = decimal(api as nat);
    let b = decimal(stream as nat);
    crate::text::lemma_decimal_digits(api as nat);
    crate::text::lemma_decimal_digits(stream as nat);
    let text = a + " "@ + b + "\n"@;
    let rest = " "@ + b + "\n"@;
    assert(text =~= a + rest);
    assert(crate::text::is_digit(a[0]));
    assert(text[0] == a[0]);
    assert(trim_start(text) == text);
    lemma_leading_digits(a, rest);
    assert(text.skip(a.len() as int) =~= rest);
    assert(first_word(text) == Some((a, rest)));
    let after = b + "\n"@;
    assert(rest.drop_first() =~= after);
    assert(crate::text::is_digit(b[0]));
    assert(after[0] == b[0]);
    assert(trim_start(after) == after);
    assert(trim_start(rest) == after);
    lemma_leading_digits(b, "\n"@);
    assert(first_word(rest) == Some((b, after.skip(b.len() as int))));
}

/// What to do for an account's API and stream ports, given what its
/// endpoint file holds (`None` when there is no file or it cannot be read).
pub enum EndpointStep {
    /// The file holds a usable pair: use it.
    Use(u16, u16),
    /// Choose a free pair from the candidates, write it, and read the file
    /// again.
    Choose,
}

/// The pair an endpoint file holds, when it is two different ports of the
/// API and stream pool.
pub open spec fn stored_pair(stored: Option<Seq<char>>) -> Option<(u16, u16)> {
    match stored {
        Some(t) => pair_in_text(t, PORT_POOL_START, PORT_POOL_END),
        None => None,
    }
}

/// Reads an account's endpoint file first: a usable stored pair is used,
/// else a pair is to be chosen.
pub fn endpoint_step(stored: Option<&str>) -> (r: EndpointStep)
    ensures
        match stored_pair(
            match stored {
                Some(t) => Some(t@),
                None => None,
            },
        ) {
            Some((a, b)) => r == EndpointStep::Use(a, b),
            None => r == EndpointStep::Choose,
        },
{
    match stored {
        Some(t) => match pair_from_text(t, PORT_POOL_START, PORT_POOL_END) {
            Some((a, b)) => EndpointStep::Use(a, b),
            None => EndpointStep::Choose,
        },
        None => EndpointStep::Choose,
    }
}

/// The pair an account ends up with after choosing `chosen` and writing it:
/// what the file then holds when that is usable (another process may have
/// written it first), else `chosen`.
pub fn endpoint_after_write(reread: Option<&str>, chosen: (u16, u16)) -> (r: (u16, u16))
    ensures
        r == match stored_pair(
            match reread {
                Some(t) => Some(t@),
                None => None,
            },
        ) {
            Some(p) => p,
            None => chosen,
        },
{
    match reread {
        Some(t) => match pair_from_text(t, PORT_POOL_START, PORT_POOL_END) {
            Some(p) => p,
            None => chosen,
        },
        None => chosen,
    }
}

/// Endpoints persist per account, and are always two different ports of
/// the pool: a pair chosen from the candidates and written to the endpoint
/// file is what every later read of that file uses; and whatever the file
/// holds, the pair used is two different pool ports whenever the chosen
/// one is.
pub proof fn lemma_endpoints_persist(chosen: (u16, u16), reread: Option<Seq<char>>)
    requires
        chosen.0 != chosen.1,
        in_pool(chosen.0, PORT_POOL_START, PORT_POOL_END),
        in_pool(chosen.1, PORT_POOL_START, PORT_POOL_END),
    ensures
        stored_pair(Some(pair_file_text(chosen.0, chosen.1))) == Some(chosen),
        ({
            let used = match stored_pair(reread) {
                Some(p) => p,
                None => chosen,
            };
            used.0 != used.1 && in_pool(used.0, PORT_POOL_START, PORT_POOL_END) && in_pool(
                used.1,
                PORT_POOL_START,
                PORT_POOL_END,
            )
        }),
{
    lemma_pair_file_round_trip(chosen.0, chosen.1, PORT_POOL_START, PORT_POOL_END);
    match reread {
        Some(t) => lemma_endpoint_pairs_in_pool(PORT_POOL_START, PORT_POOL_END, 0, t),
        None => {},
    }
}

/// The leading run of non-whitespace characters.
pub open spec fn leading_word(s: Seq<char>) -> Seq<char>
    decreases s.len(),
{
    if s.len() > 0 && !crate::text::is_ws(s[0]) {
        seq![s[0]] + leading_word(s.drop_first())
    } else {
        Seq::empty()
    }
}

/// The first whitespace-separated word of `s` and what follows it, as
/// `split_whitespace` yields it.
pub open spec fn first_word(s: Seq<char>) -> Option<(Seq<char>, Seq<char>)> {
    let t = trim_start(s);
    if t.len() == 0 {
        None
    } else {
        let w = leading_word(t);
        Some((w, t.skip(w.len() as int)))
    }
}

/// The API and stream ports of an endpoint file's content: its first two
/// words as `u16`, distinct and both inside `lo..=hi`.
pub open spec fn pair_in_text(contents: Seq<char>, lo: u16, hi: u16) -> Option<(u16, u16)> {
    match first_word(contents) {
        Some((a, rest)) => match parse_unsigned(a, u16::MAX as nat) {
            Some(api) => match first_word(rest) {
                Some((b, _)) => match parse_unsigned(b, u16::MAX as nat) {
                    Some(stream) => if api != stream && lo <= api <= hi && lo <= stream <= hi {
                        Some((api as u16, stream as u16))
                    } else {
                        None
                    },
                    None => None,
                },
                None => None,
            },
            None => None,
        },
        None => None,
    }
}

/// The first word of `v[from..]` and the index right after it.
pub(crate) fn next_word(v: &Vec<char>, from: usize) -> (r: Option<(Vec<char>, usize)>)
    requires
        from <= v.len(),
    ensures
        match first_word(v@.skip(from as int)) {
            Some((w, rest)) => r matches Some((x, e)) && x@ == w && e <= v.len() && rest
                == v@.skip(e as int),
            None => r is None,
        },
{
    let mut a = from;
    while a < v.len() && is_ws_char(v[a])
        invariant
            from <= a <= v.len(),
            trim_start(v@.skip(from as int)) == trim_start(v@.skip(a as int)),
        decreases v.len() - a,
    {
        assert(v@.skip(a as int).drop_first() == v@.skip(a + 1));
        a += 1;
    }
    if a == v.len() {
        assert(v@.skip(a as int).len() == 0);
        return None;
    }
    assert(trim_start(v@.skip(a as int)) == v@.skip(a as int));
    let mut b = a;
    while b < v.len() && !is_ws_char(v[b])
        invariant
            a <= b <= v.len(),
            leading_word(v@.skip(a as int)) == v@.subrange(a as int, b as int) + leading_word(
                v@.skip(b as int),
            ),
        decreases v.len() - b,
    {
        proof {
            assert(v@.skip(b as int).drop_first() == v@.skip(b + 1));
            assert(v@.subrange(a as int, b + 1) == v@.subrange(a as int, b as int) + seq![
                v@[b as int],
            ]);
        }
        b += 1;
    }
    proof {
        assert(leading_word(v@.skip(b as int)) == Seq::<char>::empty());
        assert(v@.subrange(a as int, b as int) + Seq::<char>::empty() == v@.subrange(
            a as int,
            b as int,
        ));
        assert(v@.skip(a as int).skip(b - a) == v@.skip(b as int));
    }
    Some((slice(v, a, b), b))
}

/// Reads the API and stream ports of an endpoint file's content.
pub fn pair_from_text(contents: &str, lo: u16, hi: u16) -> (r: Option<(u16, u16)>)
    ensures
        r == pair_in_text(contents@, lo, hi),
{
    let v = chars_of(contents);
    assert(v@.skip(0) == v@);
    let (a, e) = match next_word(&v, 0) {
        Some(x) => x,
        None => {
            return None;
        },
    };
    let api = match parse_unsigned_chars(&a, u16::MAX as u64) {
        Some(n) => n,
        None => {
            return None;
        },
    };
    let (b, _) = match next_word(&v, e) {
        Some(x) => x,
        None => {
            return None;
        },
    };
    let stream = match parse_unsigned_chars(&b, u16::MAX as u64) {
        Some(n) => n,
        None => {
            return None;
        },
    };
    if api != stream && lo as u64 <= api && api <= hi as u64 && lo as u64 <= stream && stream
        <= hi as u64 {
        Some((api as u16, stream as u16))
    } else {
        None
    }
}

pub open spec fn is_adjacent(p: (u16, u16)) -> bool {
    p.0 + 1 == p.1 || p.1 + 1 == p.0
}

/// The consecutive pairs of `ports` whose values differ by one: the
/// candidates for an API port and the stream port next to it.
pub open spec fn adjacent_pairs_of(ports: Seq<u16>) -> Seq<(u16, u16)> {
    let windows = if ports.len() < 2 {
        Seq::<(u16, u16)>::empty()
    } else {
        Seq::new((ports.len() - 1) as nat, |i: int| (ports[i], ports[i + 1]))
    };
    windows.filter(|p: (u16, u16)| is_adjacent(p))
}

pub fn adjacent_pairs(ports: &Vec<u16>) -> (r: Vec<(u16, u16)>)
    ensures
        r@ == adjacent_pairs_of(ports@),
{
    let ghost windows = if ports@.len() < 2 {
        Seq::<(u16, u16)>::empty()
    } else {
        Seq::new((ports@.len() - 1) as nat, |i: int| (ports@[i], ports@[i + 1]))
    };
    let mut r: Vec<(u16, u16)> = Vec::new();
    if ports.len() < 2 {
        assert(windows.filter(|p: (u16, u16)| is_adjacent(p)) =~= Seq::<(u16, u16)>::empty()) by {
            reveal(Seq::filter);
        }
        return r;
    }
    let mut i: usize = 0;
    while i + 1 < ports.len()
        invariant
            ports.len() >= 2,
            i + 1 <= ports.len(),
            windows == Seq::new((ports@.len() - 1) as nat, |i: int| (ports@[i], ports@[i + 1])),
            r@ == windows.take(i as int).filter(|p: (u16, u16)| is_adjacent(p)),
        decreases ports.len() - i,
    {
        let w = (ports[i], ports[i + 1]);
        proof {
            let prev = windows.take(i as int);
            assert(windows.take(i + 1) == prev.push(w));
            assert(prev.push(w).drop_last() == prev);
            reveal(Seq::filter);
        }
        if ports[i] as u32 + 1 == ports[i + 1] as u32 || ports[i + 1] as u32 + 1 == ports[i] as u32 {
            r.push(w);
        }
        i += 1;
    }
    assert(windows.take(i as int) == windows);
    r
}

proof fn lemma_filter_from<A>(s: Seq<A>, f: spec_fn(A) -> bool, i: int)
    requires
        0 <= i < s.filter(f).len(),
    ensures
        exists|j: int| 0 <= j < s.len() && s[j] == #[trigger] s.filter(f)[i],
    decreases s.len(),
{
    reveal(Seq::filter);
    if s.len() > 0 {
        let rest = s.drop_last();
        if f(s.last()) && i == rest.filter(f).len() {
            assert(s.filter(f)[i] == s[s.len() - 1]);
        } else {
            assert(s.filter(f)[i] == rest.filter(f)[i]);
            lemma_filter_from(rest, f, i);
            let j = choose|j: int| 0 <= j < rest.len() && rest[j] == rest.filter(f)[i];
            assert(s[j] == rest[j]);
        }
    }
}

/// Every endpoint pair the pool offers, and every one an endpoint file
/// reads back, is two different ports of the pool.
pub proof fn lemma_endpoint_pairs_in_pool(start: u16, end: u16, hash: u64, text: Seq<char>)
    requires
        start <= end,
    ensures
        forall|k: int|
            0 <= k < adjacent_pairs_of(port_order(start, end, hash)).len() ==> {
                let p = #[trigger] adjacent_pairs_of(port_order(start, end, hash))[k];
                p.0 != p.1 && in_pool(p.0, start, end) && in_pool(p.1, start, end)
            },
        pair_in_text(text, start, end) matches Some(p) ==> p.0 != p.1 && in_pool(p.0, start, end)
            && in_pool(p.1, start, end),
{
    let ports = port_order(start, end, hash);
    lemma_port_order_is_permutation(start, end, hash);
    let windows = if ports.len() < 2 {
        Seq::<(u16, u16)>::empty()
    } else {
        Seq::new((ports.len() - 1) as nat, |i: int| (ports[i], ports[i + 1]))
    };
    let f = |p: (u16, u16)| is_adjacent(p);
    assert forall|k: int| 0 <= k < adjacent_pairs_of(ports).len() implies {
        let p = #[trigger] adjacent_pairs_of(ports)[k];
        p.0 != p.1 && in_pool(p.0, start, end) && in_pool(p.1, start, end)
    } by {
        assert(adjacent_pairs_of(ports) == windows.filter(f));
        windows.lemma_filter_pred(f, k);
        lemma_filter_from(windows, f, k);
        let j = choose|j: int| 0 <= j < windows.len() && windows[j] == windows.filter(f)[k];
        assert(ports.contains(ports[j]) && ports.contains(ports[j + 1]));
    }
}

/// The API and stream port pairs an account tries, in order: the adjacent
/// pairs of its ordered pool `61000..=61199`. Each is two different ports
/// of that pool.
pub fn endpoint_pair_candidates(account: &str) -> (r: Vec<(u16, u16)>)
    ensures
        r@ == adjacent_pairs_of(port_order(PORT_POOL_START, PORT_POOL_END, default_hash_of(account@))),
        forall|k: int|
            0 <= k < r@.len() ==> (#[trigger] r@[k]).0 != r@[k].1 && in_pool(
                r@[k].0,
                PORT_POOL_START,
                PORT_POOL_END,
            ) && in_pool(r@[k].1, PORT_POOL_START, PORT_POOL_END),
{
    let ports = ordered_ports(PORT_POOL_START, PORT_POOL_END, account);
    let r = adjacent_pairs(&ports);
    proof {
        lemma_endpoint_pairs_in_pool(
            PORT_POOL_START,
            PORT_POOL_END,
            default_hash_of(account@),
            Seq::empty(),
        );
    }
    r
}

// ---------------------------------------------------------------------------
// Accounts on disk
// ---------------------------------------------------------------------------

/// The stem and extension of a file name, as `Path::file_stem` and
/// `Path::extension` split it: at the last `.`, unless that `.` starts the name.
pub open spec fn stem_and_ext(name: Seq<char>) -> (Seq<char>, Option<Seq<char>>) {
    if name == ".."@ {
        (name, None)
    } else if exists|i: int| 0 < i < name.len() && name[i] == '.' {
        let p = choose|p: int|
            0 < p < name.len() && name[p] == '.' && forall|j: int| p < j < name.len() ==> name[j]
                != '.';
        (name.take(p), Some(name.skip(p + 1)))
    } else {
        (name, None)
    }
}

/// The accounts that a file name in the accounts directory names: the stem
/// of a `.json` file whose stem is a valid account name other than `default`.
pub open spec fn account_of_file(name: Seq<char>) -> Option<Seq<char>> {
    let (stem, ext) = stem_and_ext(name);
    if ext == Some("json"@) && account_name(stem) is Ok && stem != DEFAULT_ACCOUNT@ {
        Some(stem)
    } else {
        None
    }
}

fn account_of_file_exec(name: &str) -> (r: Option<Vec<char>>)
    ensures
        match account_of_file(name@) {
            Some(a) => r matches Some(x) && x@ == a,
            None => r is None,
        },
{
    proof {
        reveal_strlit("..");
        reveal_strlit("json");
    }
    let v = chars_of(name);
    if str_eq(name, "..") {
        return None;
    }
    let p = match rfind_char(&v, '.') {
        Some(p) => p,
        None => {
            assert(!exists|i: int| 0 < i < v@.len() && v@[i] == '.');
            return None;
        },
    };
    if p == 0 {
        assert(!exists|i: int| 0 < i < v@.len() && v@[i] == '.');
        return None;
    }
    proof {
        let q = choose|q: int|
            0 < q < v@.len() && v@[q] == '.' && forall|j: int| q < j < v@.len() ==> v@[j] != '.';
        assert(q == p);
    }
    let stem = slice(&v, 0, p);
    let ext = slice(&v, p + 1, v.len());
    assert(stem@ == v@.take(p as int));
    assert(ext@ == v@.skip(p + 1));
    let stem_s = string_of(&stem);
    if str_eq(string_of(&ext).as_str(), "json") && validate_account_name(stem_s.as_str()).is_ok()
        && !str_eq(stem_s.as_str(), DEFAULT_ACCOUNT) {
        Some(stem)
    } else {
        None
    }
}

/// One of the first `n` file names names the account `a`.
pub open spec fn named_by(names: Seq<Seq<char>>, n: int, a: Seq<char>) -> bool {
    exists|k: int| 0 <= k < n && account_of_file(names[k]) == Some(a)
}

/// The accounts found on disk: `default`, and each account named by a file
/// of the accounts directory.
pub open spec fn accounts_listed(file_names: Seq<Seq<char>>) -> Set<Seq<char>> {
    Set::new(|a: Seq<char>| a == DEFAULT_ACCOUNT@ || named_by(file_names, file_names.len() as int, a))
}

/// The accounts, sorted and without repetition, given the names of the
/// files in the accounts directory.
pub fn list_accounts(file_names: &Vec<String>) -> (r: Vec<String>)
    ensures
        strictly_sorted(crate::shell::views_of(r@)),
        crate::shell::views_of(r@).to_set() == accounts_listed(crate::shell::views_of(file_names@)),
{
    let ghost names = crate::shell::views_of(file_names@);
    let mut acc: Vec<Vec<char>> = Vec::new();
    insert_sorted_unique(&mut acc, chars_of(DEFAULT_ACCOUNT));
    assert(vec_views(acc@).to_set() =~= Set::new(
        |a: Seq<char>| a == DEFAULT_ACCOUNT@ || named_by(names, 0, a),
    ));
    let mut i: usize = 0;
    while i < file_names.len()
        invariant
            i <= file_names.len(),
            names == crate::shell::views_of(file_names@),
            strictly_sorted(vec_views(acc@)),
            vec_views(acc@).to_set() == Set::new(
                |a: Seq<char>| a == DEFAULT_ACCOUNT@ || named_by(names, i as int, a),
            ),
        decreases file_names.len() - i,
    {
        let found = account_of_file_exec(file_names[i].as_str());
        proof {
            assert(names[i as int] == file_names@[i as int]@);
        }
        match found {
            Some(a) => {
                let ghost av = a@;
                insert_sorted_unique(&mut acc, a);
                proof {
                    assert forall|x: Seq<char>| #[trigger]
                        named_by(names, i + 1, x) <==> named_by(names, i as int, x) || x == av by {
                        if x == av {
                            assert(account_of_file(names[i as int]) == Some(x));
                        }
                        if named_by(names, i + 1, x) {
                            let k = choose|k: int|
                                0 <= k < i + 1 && account_of_file(names[k]) == Some(x);
                            if k < i {
                                assert(named_by(names, i as int, x));
                            }
                        }
                    }
                    assert(vec_views(acc@).to_set() =~= Set::new(
                        |a: Seq<char>| a == DEFAULT_ACCOUNT@ || named_by(names, i + 1, a),
                    ));
                }
            },
            None => {
                proof {
                    assert forall|x: Seq<char>| #[trigger]
                        named_by(names, i + 1, x) <==> named_by(names, i as int, x) by {
                        if named_by(names, i + 1, x) {
                            let k = choose|k: int|
                                0 <= k < i + 1 && account_of_file(names[k]) == Some(x);
                            if k < i {
                                assert(named_by(names, i as int, x));
                            }
                        }
                    }
                    assert(vec_views(acc@).to_set() =~= Set::new(
                        |a: Seq<char>| a == DEFAULT_ACCOUNT@ || named_by(names, i + 1, a),
                    ));
                }
            },
        }
        i += 1;
    }
    let mut r: Vec<String> = Vec::new();
    let mut j: usize = 0;
    while j < acc.len()
        invariant
            j <= acc.len(),
            r.len() == j,
            crate::shell::views_of(r@) == vec_views(acc@).take(j as int),
        decreases acc.len() - j,
    {
        let ghost before = r@;
        r.push(string_of(&acc[j]));
        proof {
            assert forall|k: int| 0 <= k < j implies r@[k] == before[k] by {}
        }
        j += 1;
        assert(crate::shell::views_of(r@) =~= vec_views(acc@).take(j as int));
    }
    assert(vec_views(acc@).take(acc.len() as int) == vec_views(acc@));
    assert(accounts_listed(names) =~= vec_views(acc@).to_set());
    r
}

// ---------------------------------------------------------------------------
// Defaults taken from the environment
// ---------------------------------------------------------------------------

/// The daemon API URL that the clients use by default.
pub fn default_api_url(env: &Env) -> (r: String)
    ensures
        r@ == or_default(first_nonempty(*env, seq!["JUD_API_URL"@]), DEFAULT_API_URL@),
{
    let keys: [&str; 1] = ["JUD_API_URL"];
    let r = env_string(env, &keys, DEFAULT_API_URL);
    assert(strs_view(keys@) =~= seq!["JUD_API_URL"@]);
    r
}

/// The daemon stream URL that the clients use by default.
pub fn default_stream_url(env: &Env) -> (r: String)
    ensures
        r@ == or_default(first_nonempty(*env, seq!["JUD_STREAM_URL"@]), DEFAULT_STREAM_URL@),
{
    let keys: [&str; 1] = ["JUD_STREAM_URL"];
    let r = env_string(env, &keys, DEFAULT_STREAM_URL);
    assert(strs_view(keys@) =~= seq!["JUD_STREAM_URL"@]);
    r
}

/// The daemon log file that the clients use by default.
pub fn default_log(env: &Env) -> (r: String)
    ensures
        r@ == or_default(first_nonempty(*env, seq!["JUD_LOG"@]), DEFAULT_LOG@),
{
    let keys: [&str; 1] = ["JUD_LOG"];
    let r = env_string(env, &keys, DEFAULT_LOG);
    assert(strs_view(keys@) =~= seq!["JUD_LOG"@]);
    r
}

/// The value of the single variable `key` when set and non-empty, else `default`.
pub open spec fn var_or(env: Env, key: Seq<char>, default: Seq<char>) -> Seq<char> {
    match env.var(key) {
        Some(v) if v.len() > 0 => v,
        _ => default,
    }
}

pub fn env_var_or(env: &Env, key: &str, default: &str) -> (r: String)
    ensures
        r@ == var_or(*env, key@, default@),
{
    match env.get(key) {
        Some(v) => if !v.as_str().is_empty() {
            return v;
        },
        None => {},
    }
    default.to_owned()
}

pub fn default_hub_url() -> (r: String)
    ensures
        r@ == DEFAULT_HUB_URL@,
{
    DEFAULT_HUB_URL.to_owned()
}

pub fn default_repo_url(env: &Env) -> (r: String)
    ensures
        r@ == var_or(*env, "JUD_REPO_URL"@, DEFAULT_REPO_URL@),
{
    env_var_or(env, "JUD_REPO_URL", DEFAULT_REPO_URL)
}

pub fn default_ttl(env: &Env) -> (r: String)
    ensures
        r@ == var_or(*env, "JUD_TTL"@, "120"@),
{
    env_var_or(env, "JUD_TTL", "120")
}

pub fn default_disk_size(env: &Env) -> (r: String)
    ensures
        r@ == var_or(*env, "JUD_DISK_SIZE"@, "40Gi"@),
{
    env_var_or(env, "JUD_DISK_SIZE", "40Gi")
}

pub fn default_notebook_path(env: &Env) -> (r: String)
    ensures
        r@ == var_or(*env, "JUD_NOTEBOOK_PATH"@, DEFAULT_NOTEBOOK_PATH@),
{
    env_var_or(env, "JUD_NOTEBOOK_PATH", DEFAULT_NOTEBOOK_PATH)
}

pub fn default_scan_file_path(env: &Env) -> (r: String)
    ensures
        r@ == var_or(*env, "JUD_SCAN_FILE_PATH"@, DEFAULT_SCAN_FILE_PATH@),
{
    env_var_or(env, "JUD_SCAN_FILE_PATH", DEFAULT_SCAN_FILE_PATH)
}

pub fn default_gitcode_user(env: &Env) -> (r: String)
    ensures
        r@ == var_or(*env, "GITCODE_USER"@, "username"@),
{
    env_var_or(env, "GITCODE_USER", "username")
}

pub fn default_profile_directory(env: &Env) -> (r: String)
    ensures
        r@ == var_or(*env, "JUD_CHROME_PROFILE"@, "Default"@),
{
    env_var_or(env, "JUD_CHROME_PROFILE", "Default")
}

/// The Chrome executable: `CHROME` when set and non-empty, else the Google
/// Chrome install path when it exists, else `google-chrome-stable`.
pub fn default_chrome_bin(env: &Env, installed_chrome_exists: bool) -> (r: String)
    ensures
        r@ == (match env.var("CHROME"@) {
            Some(v) if v.len() > 0 => v,
            _ => if installed_chrome_exists {
                "/opt/google/chrome/google-chrome"@
            } else {
                "google-chrome-stable"@
            },
        }),
{
    match env.get("CHROME") {
        Some(v) => if !v.as_str().is_empty() {
            return v;
        },
        None => {},
    }
    if installed_chrome_exists {
        "/opt/google/chrome/google-chrome".to_owned()
    } else {
        "google-chrome-stable".to_owned()
    }
}

/// A URL on the loopback interface: `prefix` followed by the port in decimal.
pub fn loopback_url(prefix: &str, port: u16) -> (r: String)
    ensures
        r@ == prefix@ + decimal(port as nat),
{
    let mut v = chars_of(prefix);
    crate::text::append(&mut v, &decimal_chars(port as u64));
    string_of(&v)
}

/// The value of `key` when it is set and not empty.
pub open spec fn nonempty_var(env: Env, key: Seq<char>) -> Option<Seq<char>> {
    match env.var(key) {
        Some(v) if v.len() > 0 => Some(v),
        _ => None,
    }
}

fn nonempty_env(env: &Env, key: &str) -> (r: Option<String>)
    ensures
        opt_view(r) == nonempty_var(*env, key@),
{
    match env.get(key) {
        Some(v) => if v.as_str().is_empty() {
            None
        } else {
            Some(v)
        },
        None => None,
    }
}

/// The API URL an account uses when `JUD_API_URL` gives one (set and not
/// empty); otherwise the URL is `http://127.0.0.1:` and the account's API
/// port.
pub fn api_url_override(env: &Env) -> (r: Option<String>)
    ensures
        opt_view(r) == nonempty_var(*env, "JUD_API_URL"@),
{
    nonempty_env(env, "JUD_API_URL")
}

/// The stream URL an account uses when `JUD_STREAM_URL` gives one (set and
/// not empty); otherwise the URL is `tcp://127.0.0.1:` and the account's
/// stream port.
pub fn stream_url_override(env: &Env) -> (r: Option<String>)
    ensures
        opt_view(r) == nonempty_var(*env, "JUD_STREAM_URL"@),
{
    nonempty_env(env, "JUD_STREAM_URL")
}

/// The Chrome DevTools port set by `JUD_CDP_PORT` when non-empty; a value
/// that does not parse falls back to the start of the CDP pool.
pub fn cdp_port_override(env: &Env) -> (r: Option<u16>)
    ensures
        r == (match env.var("JUD_CDP_PORT"@) {
            Some(v) if v.len() > 0 => Some(
                match parse_unsigned(v, u16::MAX as nat) {
                    Some(n) => n as u16,
                    None => CDP_PORT_POOL_START,
                },
            ),
            _ => None,
        }),
{
    match env.get("JUD_CDP_PORT") {
        Some(v) => {
            if v.as_str().is_empty() {
                return None;
            }
            match parse_unsigned_chars(&chars_of(v.as_str()), u16::MAX as u64) {
                Some(n) => Some(n as u16),
                None => Some(CDP_PORT_POOL_START),
            }
        },
        None => None,
    }
}

/// The API port set by `JUD_LISTEN_PORT` when that variable is set at all.
pub fn listen_port_override(env: &Env) -> (r: Option<u16>)
    ensures
        r == (if env.var("JUD_LISTEN_PORT"@) is Some {
            Some(
                match first_parsed(*env, seq!["JUD_LISTEN_PORT"@], u16::MAX as nat) {
                    Some(n) => n as u16,
                    None => PORT_POOL_START,
                },
            )
        } else {
            None
        }),
{
    if !env.is_set("JUD_LISTEN_PORT") {
        return None;
    }
    let keys: [&str; 1] = ["JUD_LISTEN_PORT"];
    assert(strs_view(keys@) =~= seq!["JUD_LISTEN_PORT"@]);
    Some(env_u16(env, &keys, PORT_POOL_START))
}

/// The stream port set by `JUD_STREAM_PORT` when that variable is set at all.
pub fn stream_port_override(env: &Env) -> (r: Option<u16>)
    ensures
        r == (if env.var("JUD_STREAM_PORT"@) is Some {
            Some(
                match first_parsed(*env, seq!["JUD_STREAM_PORT"@], u16::MAX as nat) {
                    Some(n) => n as u16,
                    None => DEFAULT_STREAM_PORT,
                },
            )
        } else {
            None
        }),
{
    if !env.is_set("JUD_STREAM_PORT") {
        return None;
    }
    let keys: [&str; 1] = ["JUD_STREAM_PORT"];
    assert(strs_view(keys@) =~= seq!["JUD_STREAM_PORT"@]);
    Some(env_u16(env, &keys, DEFAULT_STREAM_PORT))
}

// ---------------------------------------------------------------------------
// The daemon's files and endpoints
// ---------------------------------------------------------------------------

/// The files the daemon keeps per account.
#[derive(PartialEq, Eq, Structural, Clone, Copy, Debug)]
pub enum AccountFile {
    AuthCache,
    StateFile,
    ChromeProfile,
}

/// The variable that names the file for the default account.
pub open spec fn file_var(which: AccountFile) -> Seq<char> {
    match which {
        AccountFile::AuthCache => "JUD_AUTH_CACHE"@,
        AccountFile::StateFile => "JUD_STATE_FILE"@,
        AccountFile::ChromeProfile => "JUD_CHROME_PROFILE_DIR"@,
    }
}

/// The file of `account`.
pub open spec fn account_file_of(which: AccountFile, account: Seq<char>, env: Env, home: Seq<char>) -> Result<
    Seq<char>,
    AccountNameError,
> {
    match which {
        AccountFile::AuthCache => auth_cache_of(account, config_dir_of(env, home)),
        AccountFile::StateFile => state_file_of(account, config_dir_of(env, home)),
        AccountFile::ChromeProfile => chrome_profile_of(account, cache_dir_of(env, home)),
    }
}

/// The file of the account that the environment selects.
pub open spec fn default_file_of(which: AccountFile, env: Env, home: Seq<char>) -> Seq<char> {
    let account = or_default(env.var("JUD_ACCOUNT"@), DEFAULT_ACCOUNT@);
    match which {
        AccountFile::AuthCache => ok_or(
            auth_cache_of(account, config_dir_of(env, home)),
            path_join(config_dir_of(env, home), "auth.json"@),
        ),
        AccountFile::StateFile => ok_or(
            state_file_of(account, config_dir_of(env, home)),
            path_join(config_dir_of(env, home), "state.json"@),
        ),
        AccountFile::ChromeProfile => ok_or(
            chrome_profile_of(account, cache_dir_of(env, home)),
            path_join(cache_dir_of(env, home), "chrome-profile"@),
        ),
    }
}

/// The daemon's file: for the default account without a path on the
/// command line, the one its variable names (when not empty); else the path
/// given, else the account's own, else the default one; a leading `~` is
/// the home directory.
pub open spec fn account_path_of(
    which: AccountFile,
    explicit: Option<Seq<char>>,
    account: Seq<char>,
    env: Env,
    home: Seq<char>,
) -> Seq<char> {
    let over = env.var(file_var(which));
    if explicit is None && account == DEFAULT_ACCOUNT@ && over is Some && over.unwrap().len() > 0 {
        tilde_expanded(over.unwrap(), home)
    } else {
        match explicit {
            Some(p) => tilde_expanded(p, home),
            None => ok_or(
                account_file_of(which, account, env, home),
                tilde_expanded(default_file_of(which, env, home), home),
            ),
        }
    }
}

pub fn account_path(
    which: AccountFile,
    explicit: Option<&str>,
    account: &str,
    env: &Env,
    home: &str,
) -> (r: String)
    ensures
        r@ == account_path_of(
            which,
            match explicit {
                Some(p) => Some(p@),
                None => None,
            },
            account@,
            *env,
            home@,
        ),
{
    proof {
        reveal_strlit("JUD_AUTH_CACHE");
        reveal_strlit("JUD_STATE_FILE");
        reveal_strlit("JUD_CHROME_PROFILE_DIR");
    }
    let var = match which {
        AccountFile::AuthCache => "JUD_AUTH_CACHE",
        AccountFile::StateFile => "JUD_STATE_FILE",
        AccountFile::ChromeProfile => "JUD_CHROME_PROFILE_DIR",
    };
    assert(var@ == file_var(which));
    if explicit.is_none() && str_eq(account, DEFAULT_ACCOUNT) {
        match env.get(var) {
            Some(v) => {
                if !v.as_str().is_empty() {
                    return expand_tilde(v.as_str(), home);
                }
            },
            None => {},
        }
    }
    match explicit {
        Some(p) => expand_tilde(p, home),
        None => {
            let own = match which {
                AccountFile::AuthCache => account_auth_cache(
                    account,
                    default_config_dir(env, home).as_str(),
                ),
                AccountFile::StateFile => account_state_file(
                    account,
                    default_config_dir(env, home).as_str(),
                ),
                AccountFile::ChromeProfile => account_chrome_profile(
                    account,
                    default_cache_dir(env, home).as_str(),
                ),
            };
            match own {
                Ok(p) => p,
                Err(_) => {
                    let d = match which {
                        AccountFile::AuthCache => default_auth_cache(env, home),
                        AccountFile::StateFile => default_state_file(env, home),
                        AccountFile::ChromeProfile => default_chrome_profile(env, home),
                    };
                    expand_tilde(d.as_str(), home)
                },
            }
        },
    }
}

/// Chrome's DevTools target list: the address given, else the one
/// `JUD_CDP_LIST_URL` names (when not empty), else `/json` on the loopback
/// host at `cdp_port`.
pub fn cdp_list_url(explicit: Option<&str>, env: &Env, cdp_port: u16) -> (r: String)
    ensures
        explicit matches Some(u) ==> r@ == u@,
        explicit is None ==> r@ == match env.var("JUD_CDP_LIST_URL"@) {
            Some(v) => if v.len() > 0 {
                v
            } else {
                "http://127.0.0.1:"@ + crate::text::decimal(cdp_port as nat) + "/json"@
            },
            None => "http://127.0.0.1:"@ + crate::text::decimal(cdp_port as nat) + "/json"@,
        },
{
    match explicit {
        Some(u) => u.to_owned(),
        None => {
            match env.get("JUD_CDP_LIST_URL") {
                Some(v) => {
                    if !v.as_str().is_empty() {
                        return v;
                    }
                },
                None => {},
            }
            let mut s = chars_of("http://127.0.0.1:");
            crate::text::append(&mut s, &crate::text::decimal_chars(cdp_port as u64));
            append_str(&mut s, "/json");
            string_of(&s)
        },
    }
}

/// A port: the one given, else the account's, else the default.
pub fn pick_port(explicit: Option<u16>, account_port: Option<u16>, default: u16) -> (r: u16)
    ensures
        r == match explicit {
            Some(p) => p,
            None => match account_port {
                Some(p) => p,
                None => default,
            },
        },
{
    match explicit {
        Some(p) => p,
        None => match account_port {
            Some(p) => p,
            None => default,
        },
    }
}

/// A path from the first of `keys` that is set and not empty, else
/// `default`, with a leading `~` expanded.
pub fn path_from_env(env: &Env, keys: &[&str], default: &str, home: &str) -> (r: String)
    ensures
        r@ == tilde_expanded(or_default(first_nonempty(*env, strs_view(keys@)), default@), home@),
{
    let p = env_string(env, keys, default);
    expand_tilde(p.as_str(), home)
}

} // verus!
