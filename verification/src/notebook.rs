//! GitCode notebooks: what an insert answer or a saved lab URL says about a
//! notebook, the URLs of the notebook's services, and the notebook
//! experiences that the learning hub page offers.
use crate::foreign::{
    opt_view, pairs_view, parse_url, percent_encoded, regex_captured, regex_captures,
    regex_find_all, regex_found, url_encode, url_parse, UrlParts, UrlView,
};
use crate::text::{
    append, append_str, chars_eq, chars_of, contains, has_substring, join, replace_all,
    replace_all_chars, string_of, trim_end_char, trim_end_char_chars, trim_start_char,
    trim_start_char_chars,
};
use vstd::prelude::*;
use vstd::utf8::encode_utf8;

verus! {

/// The `notebook_id` of an insert answer: learning id, notebook name and a
/// suffix, joined by `-`.
pub const NOTEBOOK_ID_PATTERN: &'static str =
    "(?P<learning>.+)-(?P<name>notebook\\d+)-(?P<suffix>[^-]+)$";

/// The path of a notebook's lab URL.
pub const LAB_PATH_PATTERN: &'static str = "^/learning/([^/]+)/(notebook\\d+)(?:/|$)";

/// A notebook link on the learning hub page.
pub const HUB_LINK_PATTERN: &'static str =
    "https://ai\\.gitcode\\.com/user/[^\\\"'\\s<>)]+/notebookcann\\?[^\\\"'\\s<>)]+";

pub const NOTEBOOK_HOST: &'static str = "aihub-run.gitcode.com";

/// Where a notebook is, and how it is reached.
pub struct NotebookInfo {
    pub notebook_id: String,
    pub learning_id: String,
    pub notebook_name: String,
    pub provisioning_status: String,
    pub base_url: String,
    pub lab_url: String,
    pub target_url: String,
}

/// The fields of a GitCode insert answer that are read; one that is
/// missing or not a string is `None`.
pub struct InsertReply {
    pub notebook_id: Option<String>,
    pub provisioning_status: Option<String>,
}

/// Why no notebook could be read.
pub enum NotebookError {
    /// The insert answer has no `notebook_id`.
    MissingId,
    /// The `notebook_id` is not of the expected form.
    UnexpectedId(String),
    /// A saved lab URL does not parse, or is no notebook URL.
    NotNotebookUrl(String),
    /// A pattern did not compile.
    Pattern,
}

/// `s` in URL-encoded form.
pub open spec fn encoded(s: Seq<char>) -> Seq<char> {
    percent_encoded(encode_utf8(s))
}

/// `s` without leading or trailing `/`.
pub open spec fn trim_slashes(s: Seq<char>) -> Seq<char> {
    trim_start_char(trim_end_char(s, '/'), '/')
}

/// The service URL of a notebook.
pub open spec fn notebook_base(learning: Seq<char>, name: Seq<char>) -> Seq<char> {
    "https://aihub-run.gitcode.com/learning/"@ + learning + "/"@ + name
}

/// The lab page of a notebook, opened at `path` in its file tree when
/// `path` has more than slashes.
pub open spec fn lab_url_for(base: Seq<char>, path: Seq<char>) -> Seq<char> {
    let p = trim_slashes(path);
    base + "/lab"@ + if p.len() > 0 {
        "/tree/"@ + p
    } else {
        Seq::empty()
    }
}

/// The page on ai.gitcode.com that shows a notebook of a user.
pub open spec fn target_url_for(user: Seq<char>, id: Seq<char>) -> Seq<char> {
    "https://ai.gitcode.com/user/"@ + encoded(user) + "/notebookcann/lab?cannNotebookId="@
        + encoded(id)
}

pub open spec fn group(g: Seq<Option<Seq<char>>>, i: int) -> Option<Seq<char>> {
    if 0 <= i < g.len() {
        g[i]
    } else {
        None
    }
}

pub open spec fn text_or_empty(o: Option<Seq<char>>) -> Seq<char> {
    match o {
        Some(s) => s,
        None => Seq::empty(),
    }
}

/// `info` describes the notebook with id `id`, learning id `learning` and
/// name `name`, opened at `path` for `user`.
pub open spec fn describes(
    info: NotebookInfo,
    id: Seq<char>,
    learning: Seq<char>,
    name: Seq<char>,
    status: Seq<char>,
    path: Seq<char>,
    user: Seq<char>,
) -> bool {
    &&& info.notebook_id@ == id
    &&& info.learning_id@ == learning
    &&& info.notebook_name@ == name
    &&& info.provisioning_status@ == status
    &&& info.base_url@ == notebook_base(learning, name)
    &&& info.lab_url@ == lab_url_for(notebook_base(learning, name), path)
    &&& info.target_url@ == target_url_for(user, id)
}

fn group_text(g: &Vec<Option<String>>, i: usize) -> (r: Option<String>)
    ensures
        r matches Some(s) ==> group(crate::foreign::opt_strings_view(g@), i as int) == Some(s@),
        r is None ==> group(crate::foreign::opt_strings_view(g@), i as int) is None,
{
    if i < g.len() {
        match &g[i] {
            Some(s) => Some(s.clone()),
            None => None,
        }
    } else {
        None
    }
}

/// The notebook of an insert answer whose `notebook_id` is `id`, given the
/// capture groups of `NOTEBOOK_ID_PATTERN` on `id`: group 1 is the learning
/// id and group 2 the notebook name. No match, or a group that took no
/// part, means the id is not of the expected form.
pub fn notebook_from_id_groups(
    id: &str,
    status: &Option<String>,
    groups: &Option<Vec<Option<String>>>,
    notebook_path: &str,
    user_name: &str,
) -> (r: Result<NotebookInfo, NotebookError>)
    ensures
        match groups {
            Some(g) => {
                let gv = crate::foreign::opt_strings_view(g@);
                match (group(gv, 1), group(gv, 2)) {
                    (Some(l), Some(n)) => r matches Ok(info) && describes(
                        info,
                        id@,
                        l,
                        n,
                        text_or_empty(opt_view(*status)),
                        notebook_path@,
                        user_name@,
                    ),
                    _ => r matches Err(NotebookError::UnexpectedId(e)) && e@ == id@,
                }
            },
            None => r matches Err(NotebookError::UnexpectedId(e)) && e@ == id@,
        },
{
    let g = match groups {
        Some(g) => g,
        None => return Err(NotebookError::UnexpectedId(id.to_owned())),
    };
    let learning = match group_text(g, 1) {
        Some(s) => s,
        None => return Err(NotebookError::UnexpectedId(id.to_owned())),
    };
    let name = match group_text(g, 2) {
        Some(s) => s,
        None => return Err(NotebookError::UnexpectedId(id.to_owned())),
    };
    let base = notebook_base_url(learning.as_str(), name.as_str());
    let lab = lab_url(base.as_str(), notebook_path);
    let target = target_url(user_name, id);
    Ok(NotebookInfo {
        notebook_id: id.to_owned(),
        learning_id: learning,
        notebook_name: name,
        provisioning_status: match status {
            Some(s) => s.clone(),
            None => String::new(),
        },
        base_url: base,
        lab_url: lab,
        target_url: target,
    })
}

/// `https://aihub-run.gitcode.com/learning/<learning>/<name>`.
pub fn notebook_base_url(learning: &str, name: &str) -> (r: String)
    ensures
        r@ == notebook_base(learning@, name@),
{
    let mut v = chars_of("https://aihub-run.gitcode.com/learning/");
    append_str(&mut v, learning);
    append_str(&mut v, "/");
    append_str(&mut v, name);
    string_of(&v)
}

/// The lab page under `base`, opened at `path` when it has more than
/// slashes.
pub fn lab_url(base: &str, path: &str) -> (r: String)
    ensures
        r@ == lab_url_for(base@, path@),
{
    let p = trim_start_char_chars(&trim_end_char_chars(&chars_of(path), '/'), '/');
    let mut v = chars_of(base);
    append_str(&mut v, "/lab");
    if p.len() > 0 {
        append_str(&mut v, "/tree/");
        append(&mut v, &p);
    } else {
        assert(v@ + Seq::<char>::empty() == v@);
    }
    string_of(&v)
}

/// The ai.gitcode.com page of notebook `id` for `user`.
pub fn target_url(user: &str, id: &str) -> (r: String)
    ensures
        r@ == target_url_for(user@, id@),
{
    let mut v = chars_of("https://ai.gitcode.com/user/");
    append_str(&mut v, url_encode(user).as_str());
    append_str(&mut v, "/notebookcann/lab?cannNotebookId=");
    append_str(&mut v, url_encode(id).as_str());
    string_of(&v)
}

/// Reads the notebook that a GitCode insert answer describes, for the lab
/// path `notebook_path` and the user `user_name`. The `notebook_id` is
/// matched against `NOTEBOOK_ID_PATTERN`; what follows the match is
/// `notebook_from_id_groups`.
pub fn notebook_from_insert(info: &InsertReply, notebook_path: &str, user_name: &str) -> (r: Result<
    NotebookInfo,
    NotebookError,
>)
    ensures
        info.notebook_id is None ==> (r matches Err(NotebookError::MissingId)),
        info.notebook_id matches Some(id) ==> match regex_captured(NOTEBOOK_ID_PATTERN@, id@) {
            None => r matches Err(NotebookError::Pattern),
            Some(None) => r matches Err(NotebookError::UnexpectedId(e)) && e@ == id@,
            Some(Some(gv)) => match (group(gv, 1), group(gv, 2)) {
                (Some(l), Some(n)) => r matches Ok(nb) && describes(
                    nb,
                    id@,
                    l,
                    n,
                    text_or_empty(opt_view(info.provisioning_status)),
                    notebook_path@,
                    user_name@,
                ),
                _ => r matches Err(NotebookError::UnexpectedId(e)) && e@ == id@,
            },
        },
{
    let id = match &info.notebook_id {
        Some(id) => id,
        None => return Err(NotebookError::MissingId),
    };
    match regex_captures(NOTEBOOK_ID_PATTERN, id.as_str()) {
        Err(_) => Err(NotebookError::Pattern),
        Ok(groups) => notebook_from_id_groups(
            id.as_str(),
            &info.provisioning_status,
            &groups,
            notebook_path,
            user_name,
        ),
    }
}

// ---------------------------------------------------------------------------
// A saved lab URL
// ---------------------------------------------------------------------------

/// The value of the first query pair named `cannNotebookId`.
pub open spec fn first_notebook_id(q: Seq<(Seq<char>, Seq<char>)>) -> Option<Seq<char>>
    decreases q.len(),
{
    if q.len() == 0 {
        None
    } else if q[0].0 == "cannNotebookId"@ {
        Some(q[0].1)
    } else {
        first_notebook_id(q.drop_first())
    }
}

/// The notebook id that a target URL names, else `<learning>-<name>`.
pub open spec fn saved_notebook_id(
    target: Option<UrlView>,
    learning: Seq<char>,
    name: Seq<char>,
) -> Seq<char> {
    match target {
        Some(t) => match first_notebook_id(t.query) {
            Some(id) => id,
            None => learning + "-"@ + name,
        },
        None => learning + "-"@ + name,
    }
}

/// `<scheme>://<host>/learning/<learning>/<name>`, with the notebook host
/// where the URL has none.
pub open spec fn saved_base(href: UrlView, learning: Seq<char>, name: Seq<char>) -> Seq<char> {
    href.scheme + "://"@ + text_or_default(href.host, NOTEBOOK_HOST@) + "/learning/"@ + learning
        + "/"@ + name
}

pub open spec fn text_or_default(o: Option<Seq<char>>, d: Seq<char>) -> Seq<char> {
    match o {
        Some(s) => s,
        None => d,
    }
}

fn find_notebook_id(q: &Vec<(String, String)>) -> (r: Option<String>)
    ensures
        r matches Some(s) ==> first_notebook_id(pairs_view(q@)) == Some(s@),
        r is None ==> first_notebook_id(pairs_view(q@)) is None,
{
    let key = chars_of("cannNotebookId");
    let ghost qv = pairs_view(q@);
    let mut i: usize = 0;
    proof {
        reveal_strlit("cannNotebookId");
        assert(qv.skip(0) == qv);
    }
    while i < q.len()
        invariant
            i <= q.len(),
            qv == pairs_view(q@),
            key@ == "cannNotebookId"@,
            first_notebook_id(qv) == first_notebook_id(qv.skip(i as int)),
        decreases q.len() - i,
    {
        assert(qv.skip(i as int).drop_first() == qv.skip(i + 1));
        assert(qv.skip(i as int)[0] == qv[i as int]);
        if chars_eq(&chars_of(q[i].0.as_str()), &key) {
            return Some(q[i].1.clone());
        }
        i += 1;
    }
    assert(qv.skip(q.len() as int).len() == 0);
    None
}

fn host_or_default(h: &Option<String>) -> (r: String)
    ensures
        r@ == text_or_default(opt_view(*h), NOTEBOOK_HOST@),
{
    match h {
        Some(s) => s.clone(),
        None => NOTEBOOK_HOST.to_owned(),
    }
}

/// The notebook of a saved lab URL `href` whose parts are `parsed`, given
/// the capture groups of `LAB_PATH_PATTERN` on its path and the parts of the
/// saved target URL (`None` where it does not parse). The notebook counts
/// as ready.
pub fn notebook_from_lab_parts(
    href: &str,
    parsed: &UrlParts,
    groups: &Option<Vec<Option<String>>>,
    target_url: &str,
    target: &Option<UrlParts>,
) -> (r: Result<NotebookInfo, NotebookError>)
    ensures
        match groups {
            Some(g) => {
                let gv = crate::foreign::opt_strings_view(g@);
                match (group(gv, 1), group(gv, 2)) {
                    (Some(l), Some(n)) => r matches Ok(info) && info.learning_id@ == l
                        && info.notebook_name@ == n && info.provisioning_status@ == "READY"@
                        && info.base_url@ == saved_base(parsed@, l, n) && info.lab_url@ == href@
                        && info.target_url@ == target_url@ && info.notebook_id@
                        == saved_notebook_id(
                        match target {
                            Some(t) => Some(t@),
                            None => None,
                        },
                        l,
                        n,
                    ),
                    _ => r matches Err(NotebookError::NotNotebookUrl(e)) && e@ == href@,
                }
            },
            None => r matches Err(NotebookError::NotNotebookUrl(e)) && e@ == href@,
        },
{
    let g = match groups {
        Some(g) => g,
        None => return Err(NotebookError::NotNotebookUrl(href.to_owned())),
    };
    let learning = match group_text(g, 1) {
        Some(s) => s,
        None => return Err(NotebookError::NotNotebookUrl(href.to_owned())),
    };
    let name = match group_text(g, 2) {
        Some(s) => s,
        None => return Err(NotebookError::NotNotebookUrl(href.to_owned())),
    };
    let mut base = chars_of(parsed.scheme.as_str());
    append_str(&mut base, "://");
    append_str(&mut base, host_or_default(&parsed.host).as_str());
    append_str(&mut base, "/learning/");
    append_str(&mut base, learning.as_str());
    append_str(&mut base, "/");
    append_str(&mut base, name.as_str());
    let id = match target {
        Some(t) => match find_notebook_id(&t.query) {
            Some(id) => id,
            None => {
                let mut v = chars_of(learning.as_str());
                append_str(&mut v, "-");
                append_str(&mut v, name.as_str());
                string_of(&v)
            },
        },
        None => {
            let mut v = chars_of(learning.as_str());
            append_str(&mut v, "-");
            append_str(&mut v, name.as_str());
            string_of(&v)
        },
    };
    Ok(NotebookInfo {
        notebook_id: id,
        learning_id: learning,
        notebook_name: name,
        provisioning_status: "READY".to_owned(),
        base_url: string_of(&base),
        lab_url: href.to_owned(),
        target_url: target_url.to_owned(),
    })
}

/// Reads the notebook of a saved lab URL: `href` must parse, and its path
/// match `LAB_PATH_PATTERN`; the notebook id comes from `target_url` where
/// that names one. What follows the calls is `notebook_from_lab_parts`.
pub fn notebook_from_lab_url(href: &str, target_url: &str) -> (r: Result<
    NotebookInfo,
    NotebookError,
>)
    ensures
        url_parse(href@) is None ==> (r matches Err(NotebookError::NotNotebookUrl(e)) && e@
            == href@),
        url_parse(href@) matches Some(u) ==> match regex_captured(LAB_PATH_PATTERN@, u.path) {
            None => r matches Err(NotebookError::Pattern),
            Some(None) => r matches Err(NotebookError::NotNotebookUrl(e)) && e@ == href@,
            Some(Some(gv)) => match (group(gv, 1), group(gv, 2)) {
                (Some(l), Some(n)) => r matches Ok(info) && info.learning_id@ == l
                    && info.notebook_name@ == n && info.provisioning_status@ == "READY"@
                    && info.base_url@ == saved_base(u, l, n) && info.lab_url@ == href@
                    && info.target_url@ == target_url@ && info.notebook_id@ == saved_notebook_id(
                    url_parse(target_url@),
                    l,
                    n,
                ),
                _ => r matches Err(NotebookError::NotNotebookUrl(e)) && e@ == href@,
            },
        },
{
    let parsed = match parse_url(href) {
        Some(p) => p,
        None => return Err(NotebookError::NotNotebookUrl(href.to_owned())),
    };
    let groups = match regex_captures(LAB_PATH_PATTERN, parsed.path.as_str()) {
        Ok(g) => g,
        Err(_) => return Err(NotebookError::Pattern),
    };
    let target = parse_url(target_url);
    notebook_from_lab_parts(href, &parsed, &groups, target_url, &target)
}

/// A saved lab URL is only reused when it points at the notebook host.
pub fn is_notebook_href(href: &str) -> (r: bool)
    ensures
        r == contains(href@, NOTEBOOK_HOST@),
{
    has_substring(&chars_of(href), &chars_of(NOTEBOOK_HOST))
}

// ---------------------------------------------------------------------------
// Service URLs
// ---------------------------------------------------------------------------

pub const INSERT_ENDPOINT: &'static str =
    "https://web-api.gitcode.com/aihub/api/v1/notebookcann/insert?";

/// `<key>=<value>`, both URL-encoded.
pub open spec fn query_pair(key: Seq<char>, value: Seq<char>) -> Seq<char> {
    encoded(key) + "="@ + encoded(value)
}

/// The URL that asks GitCode for a notebook of the repository `repo_url`
/// with this lifetime, disk size, lab path and file to scan.
pub open spec fn insert_url_for(
    repo_url: Seq<char>,
    ttl: Seq<char>,
    disk_size: Seq<char>,
    path: Seq<char>,
    scan_file_path: Seq<char>,
) -> Seq<char> {
    INSERT_ENDPOINT@ + join(
        seq![
            query_pair("repoUrl"@, repo_url),
            query_pair("ttl"@, ttl),
            query_pair("diskSize"@, disk_size),
            query_pair("path"@, path),
            query_pair("scanFilePath"@, scan_file_path),
            query_pair("__s"@, "aihub"@),
        ],
        "&"@,
    )
}

fn query_pair_chars(key: &str, value: &str) -> (r: Vec<char>)
    ensures
        r@ == query_pair(key@, value@),
{
    let mut v = chars_of(url_encode(key).as_str());
    append_str(&mut v, "=");
    append_str(&mut v, url_encode(value).as_str());
    v
}

/// The insert URL for a notebook with these settings.
pub fn insert_url(
    repo_url: &str,
    ttl: &str,
    disk_size: &str,
    notebook_path: &str,
    scan_file_path: &str,
) -> (r: String)
    ensures
        r@ == insert_url_for(repo_url@, ttl@, disk_size@, notebook_path@, scan_file_path@),
{
    let mut parts: Vec<Vec<char>> = Vec::new();
    parts.push(query_pair_chars("repoUrl", repo_url));
    parts.push(query_pair_chars("ttl", ttl));
    parts.push(query_pair_chars("diskSize", disk_size));
    parts.push(query_pair_chars("path", notebook_path));
    parts.push(query_pair_chars("scanFilePath", scan_file_path));
    parts.push(query_pair_chars("__s", "aihub"));
    let joined = crate::text::join_chars(&parts, &chars_of("&"));
    proof {
        assert(crate::text::vec_views(parts@) =~= seq![
            query_pair("repoUrl"@, repo_url@),
            query_pair("ttl"@, ttl@),
            query_pair("diskSize"@, disk_size@),
            query_pair("path"@, notebook_path@),
            query_pair("scanFilePath"@, scan_file_path@),
            query_pair("__s"@, "aihub"@),
        ]);
    }
    let mut v = chars_of(INSERT_ENDPOINT);
    append(&mut v, &joined);
    string_of(&v)
}

/// `<base>/api/status`: the notebook's status service.
pub fn status_url(base: &str) -> (r: String)
    ensures
        r@ == base@ + "/api/status"@,
{
    let mut v = chars_of(base);
    append_str(&mut v, "/api/status");
    string_of(&v)
}

/// `<base>/api/terminals`: where terminals are created.
pub fn terminals_url(base: &str) -> (r: String)
    ensures
        r@ == base@ + "/api/terminals"@,
{
    let mut v = chars_of(base);
    append_str(&mut v, "/api/terminals");
    string_of(&v)
}

/// `<base>/api/terminals/<name>`, the name URL-encoded: where a terminal is
/// deleted.
pub fn terminal_url(base: &str, name: &str) -> (r: String)
    ensures
        r@ == base@ + "/api/terminals/"@ + encoded(name@),
{
    let mut v = chars_of(base);
    append_str(&mut v, "/api/terminals/");
    append_str(&mut v, url_encode(name).as_str());
    string_of(&v)
}

/// The websocket of terminal `name` of a notebook.
pub fn terminal_websocket_url(learning: &str, notebook_name: &str, name: &str) -> (r: String)
    ensures
        r@ == "wss://aihub-run.gitcode.com/learning/"@ + learning@ + "/"@ + notebook_name@
            + "/terminals/websocket/"@ + encoded(name@),
{
    let mut v = chars_of("wss://aihub-run.gitcode.com/learning/");
    append_str(&mut v, learning);
    append_str(&mut v, "/");
    append_str(&mut v, notebook_name);
    append_str(&mut v, "/terminals/websocket/");
    append_str(&mut v, url_encode(name).as_str());
    string_of(&v)
}

/// `<base>/terminals/websocket/<name>`: the URL whose cookies go with the
/// terminal's websocket.
pub fn terminal_cookie_url(base: &str, name: &str) -> (r: String)
    ensures
        r@ == base@ + "/terminals/websocket/"@ + name@,
{
    let mut v = chars_of(base);
    append_str(&mut v, "/terminals/websocket/");
    append_str(&mut v, name);
    string_of(&v)
}

// ---------------------------------------------------------------------------
// What a notebook reports
// ---------------------------------------------------------------------------

/// A notebook with no provisioning status, or the status `READY`, may be
/// used; any other status means it is not ready yet.
pub fn is_ready(provisioning_status: &str) -> (r: bool)
    ensures
        r == (provisioning_status@.len() == 0 || provisioning_status@ == "READY"@),
{
    provisioning_status.is_empty() || crate::config::str_eq(provisioning_status, "READY")
}

/// After a failed attempt to reach a notebook, the next attempt takes the
/// login from the browser again when it may, has not yet, and the error
/// was about authentication.
pub open spec fn fresh_login_needed(allow_chrome: bool, forced: bool, error: Seq<char>) -> bool {
    allow_chrome && !forced && contains(error, "auth"@)
}

pub fn needs_fresh_login(allow_chrome: bool, forced: bool, error: &str) -> (r: bool)
    ensures
        r == fresh_login_needed(allow_chrome, forced, error@),
{
    allow_chrome && !forced && has_substring(&chars_of(error), &chars_of("auth"))
}

// ---------------------------------------------------------------------------
// Finding a usable notebook
// ---------------------------------------------------------------------------

/// Where the search for a usable notebook stands between attempts: whether
/// the notebook saved from an earlier run is known to be gone, and whether
/// the login must be taken from the browser again.
#[derive(Clone, Copy, PartialEq, Eq, Structural, Debug)]
pub struct ProvisionState {
    pub previous_dead: bool,
    pub force_extract: bool,
}

/// What an attempt does first.
#[derive(Clone, Copy, PartialEq, Eq, Structural, Debug)]
pub enum ProvisionAction {
    /// Probe the notebook saved from an earlier run and reuse it if it works.
    ProbePrevious,
    /// Create a new notebook and probe it.
    Provision,
}

/// The state a search starts in: the saved notebook counts as gone when the
/// caller asks to skip it, and a fresh login is forced when asked for.
pub fn provision_start(force_auth_extract: bool, skip_previous: bool) -> (r: ProvisionState)
    ensures
        r == (ProvisionState { previous_dead: skip_previous, force_extract: force_auth_extract }),
{
    ProvisionState { previous_dead: skip_previous, force_extract: force_auth_extract }
}

/// The saved notebook is probed while it is not known to be gone and there
/// is one; otherwise a new notebook is made. After a failed probe of the
/// saved notebook, the same attempt goes on to make a new one.
pub open spec fn next_action(s: ProvisionState, has_previous: bool) -> ProvisionAction {
    if !s.previous_dead && has_previous {
        ProvisionAction::ProbePrevious
    } else {
        ProvisionAction::Provision
    }
}

pub fn provision_next(s: &ProvisionState, has_previous: bool) -> (r: ProvisionAction)
    ensures
        r == next_action(*s, has_previous),
{
    if !s.previous_dead && has_previous {
        ProvisionAction::ProbePrevious
    } else {
        ProvisionAction::Provision
    }
}

/// The state after a failed attempt: the saved notebook is gone once a
/// probe of it failed, and a fresh login is forced from then on once an
/// error spoke of authentication where the browser may be used.
pub open spec fn state_after(
    s: ProvisionState,
    previous_failed: bool,
    error: Seq<char>,
    allow_chrome: bool,
) -> ProvisionState {
    ProvisionState {
        previous_dead: s.previous_dead || previous_failed,
        force_extract: s.force_extract || fresh_login_needed(allow_chrome, s.force_extract, error),
    }
}

/// After a failed attempt with `error` (`previous_failed` tells whether it
/// probed the saved notebook in vain): the next state, and whether the
/// search gives up because the deadline has come.
pub fn provision_after(
    s: &ProvisionState,
    previous_failed: bool,
    error: &str,
    allow_chrome: bool,
    now: i64,
    deadline: i64,
) -> (r: (ProvisionState, bool))
    ensures
        r.0 == state_after(*s, previous_failed, error@, allow_chrome),
        r.1 == (now >= deadline),
{
    let fresh = needs_fresh_login(allow_chrome, s.force_extract, error);
    (
        ProvisionState {
            previous_dead: s.previous_dead || previous_failed,
            force_extract: s.force_extract || fresh,
        },
        now >= deadline,
    )
}

/// How many attempts a remote command or an upload gets: one on the
/// current notebook, and one more after replacing it.
pub const NOTEBOOK_ATTEMPTS: u32 = 2;

/// What follows a failed attempt at a remote command or an upload.
#[derive(Clone, Copy, PartialEq, Eq, Structural, Debug)]
pub enum AttemptStep {
    /// Try again, on a notebook found without the saved one.
    Retry,
    /// Fail with the last error.
    GiveUp,
}

/// Attempt `attempt` (counted from 0) skips the saved notebook exactly when
/// it is not the first.
pub fn attempt_skips_previous(attempt: u32) -> (r: bool)
    ensures
        r == (attempt > 0),
{
    attempt > 0
}

/// After attempt `attempt` (counted from 0) failed: try again while
/// attempts remain, else give up.
pub fn after_failed_attempt(attempt: u32) -> (r: AttemptStep)
    ensures
        r == (if attempt + 1 < NOTEBOOK_ATTEMPTS {
            AttemptStep::Retry
        } else {
            AttemptStep::GiveUp
        }),
{
    if attempt < NOTEBOOK_ATTEMPTS - 1 {
        AttemptStep::Retry
    } else {
        AttemptStep::GiveUp
    }
}

/// `<what> failed after notebook replacement: <error>`.
pub open spec fn replacement_failure_text(what: Seq<char>, error: Seq<char>) -> Seq<char> {
    what + " failed after notebook replacement: "@ + error
}

/// The error of an operation that failed on both notebooks.
pub fn replacement_failure(what: &str, error: &str) -> (r: String)
    ensures
        r@ == replacement_failure_text(what@, error@),
{
    let mut v = chars_of(what);
    append_str(&mut v, " failed after notebook replacement: ");
    append_str(&mut v, error);
    string_of(&v)
}

/// A saved notebook that failed once is never probed again in the same
/// search, and a forced fresh login stays forced.
pub proof fn lemma_search_never_goes_back(
    s: ProvisionState,
    previous_failed: bool,
    error: Seq<char>,
    allow_chrome: bool,
    has_previous: bool,
)
    ensures
        s.previous_dead ==> next_action(s, has_previous) == ProvisionAction::Provision,
        s.previous_dead ==> state_after(s, previous_failed, error, allow_chrome).previous_dead,
        s.force_extract ==> state_after(s, previous_failed, error, allow_chrome).force_extract,
        previous_failed ==> next_action(state_after(s, previous_failed, error, allow_chrome), has_previous)
            == ProvisionAction::Provision,
{
}

/// The backend was restarted when both start times are known and differ.
pub fn backend_restarted(previous_started: &str, current_started: &str) -> (r: bool)
    ensures
        r == (previous_started@.len() > 0 && current_started@.len() > 0 && previous_started@
            != current_started@),
{
    !previous_started.is_empty() && !current_started.is_empty() && !crate::config::str_eq(
        previous_started,
        current_started,
    )
}

/// The status report of a notebook probe: `notebook_id=<id>`, then
/// `<key>=<value>` for each status field the notebook reported, one per
/// line.
pub open spec fn probe_report(id: Seq<char>, fields: Seq<(Seq<char>, Seq<char>)>) -> Seq<char> {
    join(
        seq!["notebook_id="@ + id] + fields.map_values(
            |f: (Seq<char>, Seq<char>)| f.0 + "="@ + f.1,
        ),
        "\n"@,
    )
}

pub fn probe_output(notebook_id: &str, fields: &Vec<(String, String)>) -> (r: String)
    ensures
        r@ == probe_report(notebook_id@, pairs_view(fields@)),
{
    let mut parts: Vec<Vec<char>> = Vec::new();
    let mut first = chars_of("notebook_id=");
    append_str(&mut first, notebook_id);
    parts.push(first);
    let ghost fv = pairs_view(fields@);
    let mut i: usize = 0;
    while i < fields.len()
        invariant
            i <= fields.len(),
            fv == pairs_view(fields@),
            crate::text::vec_views(parts@) == seq!["notebook_id="@ + notebook_id@]
                + fv.take(i as int).map_values(|f: (Seq<char>, Seq<char>)| f.0 + "="@ + f.1),
        decreases fields.len() - i,
    {
        let mut piece = chars_of(fields[i].0.as_str());
        append_str(&mut piece, "=");
        append_str(&mut piece, fields[i].1.as_str());
        let ghost before = crate::text::vec_views(parts@);
        parts.push(piece);
        proof {
            assert(crate::text::vec_views(parts@) =~= before.push(piece@));
            assert(fv.take(i + 1).map_values(|f: (Seq<char>, Seq<char>)| f.0 + "="@ + f.1)
                =~= fv.take(i as int).map_values(|f: (Seq<char>, Seq<char>)| f.0 + "="@ + f.1).push(
                fv[i as int].0 + "="@ + fv[i as int].1,
            ));
        }
        i += 1;
    }
    assert(fv.take(fields.len() as int) == fv);
    string_of(&crate::text::join_chars(&parts, &chars_of("\n")))
}

// ---------------------------------------------------------------------------
// Experiences on the learning hub page
// ---------------------------------------------------------------------------

/// A notebook that the learning hub offers.
pub struct HubExperience {
    pub repo_url: String,
    pub ttl: String,
    pub disk_size: String,
    pub notebook_path: String,
    pub scan_file_path: String,
}

pub struct ExperienceModel {
    pub repo_url: Seq<char>,
    pub ttl: Seq<char>,
    pub disk_size: Seq<char>,
    pub notebook_path: Seq<char>,
    pub scan_file_path: Seq<char>,
}

impl View for HubExperience {
    type V = ExperienceModel;

    open spec fn view(&self) -> ExperienceModel {
        ExperienceModel {
            repo_url: self.repo_url@,
            ttl: self.ttl@,
            disk_size: self.disk_size@,
            notebook_path: self.notebook_path@,
            scan_file_path: self.scan_file_path@,
        }
    }
}

/// The last value of a query parameter named `key`, else empty.
pub open spec fn query_value(q: Seq<(Seq<char>, Seq<char>)>, key: Seq<char>) -> Seq<char>
    decreases q.len(),
{
    if q.len() == 0 {
        Seq::empty()
    } else if q.last().0 == key {
        q.last().1
    } else {
        query_value(q.drop_last(), key)
    }
}

pub open spec fn or_default(s: Seq<char>, d: Seq<char>) -> Seq<char> {
    if s.len() == 0 {
        d
    } else {
        s
    }
}

/// The experience a hub link's query describes: it needs a repository, a
/// path and a file to scan; the lifetime defaults to `120` and the disk size
/// to `40Gi`.
pub open spec fn experience_of(q: Seq<(Seq<char>, Seq<char>)>) -> Option<ExperienceModel> {
    let repo = query_value(q, "repoUrl"@);
    let path = query_value(q, "path"@);
    let scan = query_value(q, "scanFilePath"@);
    if repo.len() == 0 || path.len() == 0 || scan.len() == 0 {
        None
    } else {
        Some(
            ExperienceModel {
                repo_url: repo,
                ttl: or_default(query_value(q, "ttl"@), "120"@),
                disk_size: or_default(query_value(q, "diskSize"@), "40Gi"@),
                notebook_path: path,
                scan_file_path: scan,
            },
        )
    }
}

/// Two experiences name the same repository, path and file.
pub open spec fn same_notebook(a: ExperienceModel, b: ExperienceModel) -> bool {
    a.repo_url == b.repo_url && a.notebook_path == b.notebook_path && a.scan_file_path
        == b.scan_file_path
}

pub open spec fn offered(v: Seq<ExperienceModel>, e: ExperienceModel) -> bool {
    exists|i: int| 0 <= i < v.len() && same_notebook(#[trigger] v[i], e)
}

/// The experiences of the hub links, in order: a link that does not parse
/// or describes no experience is skipped, and so is one whose repository,
/// path and file an earlier link already named.
pub open spec fn experiences_of(links: Seq<Option<UrlView>>) -> Seq<ExperienceModel>
    decreases links.len(),
{
    if links.len() == 0 {
        Seq::empty()
    } else {
        let prev = experiences_of(links.drop_last());
        match links.last() {
            None => prev,
            Some(u) => match experience_of(u.query) {
                None => prev,
                Some(e) => if offered(prev, e) {
                    prev
                } else {
                    prev.push(e)
                },
            },
        }
    }
}

pub open spec fn experience_views(v: Seq<HubExperience>) -> Seq<ExperienceModel> {
    v.map_values(|e: HubExperience| e@)
}

pub open spec fn url_views(v: Seq<Option<UrlParts>>) -> Seq<Option<UrlView>> {
    v.map_values(
        |o: Option<UrlParts>|
            match o {
                Some(u) => Some(u@),
                None => None,
            },
    )
}

fn query_value_of(q: &Vec<(String, String)>, key: &str) -> (r: String)
    ensures
        r@ == query_value(pairs_view(q@), key@),
{
    let k = chars_of(key);
    let ghost qv = pairs_view(q@);
    let mut r = String::new();
    let mut i: usize = 0;
    while i < q.len()
        invariant
            i <= q.len(),
            qv == pairs_view(q@),
            k@ == key@,
            r@ == query_value(qv.take(i as int), key@),
        decreases q.len() - i,
    {
        proof {
            assert(qv.take(i + 1).drop_last() == qv.take(i as int));
            assert(qv.take(i + 1).last() == qv[i as int]);
        }
        if chars_eq(&chars_of(q[i].0.as_str()), &k) {
            r = q[i].1.clone();
        }
        i += 1;
    }
    assert(qv.take(q.len() as int) == qv);
    r
}

fn text_or(s: String, d: &str) -> (r: String)
    ensures
        r@ == or_default(s@, d@),
{
    if s.as_str().is_empty() {
        d.to_owned()
    } else {
        s
    }
}

fn experience_from_query(q: &Vec<(String, String)>) -> (r: Option<HubExperience>)
    ensures
        match experience_of(pairs_view(q@)) {
            Some(e) => r matches Some(x) && x@ == e,
            None => r is None,
        },
{
    let repo = query_value_of(q, "repoUrl");
    let path = query_value_of(q, "path");
    let scan = query_value_of(q, "scanFilePath");
    if repo.as_str().is_empty() || path.as_str().is_empty() || scan.as_str().is_empty() {
        return None;
    }
    let ttl = text_or(query_value_of(q, "ttl"), "120");
    let disk = text_or(query_value_of(q, "diskSize"), "40Gi");
    Some(
        HubExperience {
            repo_url: repo,
            ttl,
            disk_size: disk,
            notebook_path: path,
            scan_file_path: scan,
        },
    )
}

fn is_offered(v: &Vec<HubExperience>, e: &HubExperience) -> (r: bool)
    ensures
        r == offered(experience_views(v@), e@),
{
    let ghost vv = experience_views(v@);
    let mut i: usize = 0;
    while i < v.len()
        invariant
            i <= v.len(),
            vv == experience_views(v@),
            forall|k: int| 0 <= k < i ==> !same_notebook(#[trigger] vv[k], e@),
        decreases v.len() - i,
    {
        if crate::config::str_eq(v[i].repo_url.as_str(), e.repo_url.as_str())
            && crate::config::str_eq(v[i].notebook_path.as_str(), e.notebook_path.as_str())
            && crate::config::str_eq(v[i].scan_file_path.as_str(), e.scan_file_path.as_str()) {
            assert(same_notebook(vv[i as int], e@));
            return true;
        }
        i += 1;
    }
    false
}

/// The experiences of parsed hub links (`None` for a link that did not
/// parse), in order, each repository, path and file once.
pub fn experiences_from_links(links: &Vec<Option<UrlParts>>) -> (r: Vec<HubExperience>)
    ensures
        experience_views(r@) == experiences_of(url_views(links@)),
{
    let ghost lv = url_views(links@);
    let mut out: Vec<HubExperience> = Vec::new();
    let mut i: usize = 0;
    while i < links.len()
        invariant
            i <= links.len(),
            lv == url_views(links@),
            experience_views(out@) == experiences_of(lv.take(i as int)),
        decreases links.len() - i,
    {
        proof {
            assert(lv.take(i + 1).drop_last() == lv.take(i as int));
            assert(lv.take(i + 1).last() == lv[i as int]);
        }
        match &links[i] {
            Some(u) => match experience_from_query(&u.query) {
                Some(e) => {
                    if !is_offered(&out, &e) {
                        let ghost before = experience_views(out@);
                        out.push(e);
                        assert(experience_views(out@) =~= before.push(e@));
                    }
                },
                None => {},
            },
            None => {},
        }
        i += 1;
    }
    assert(lv.take(links.len() as int) == lv);
    out
}

/// The hub links of a text: each match of `HUB_LINK_PATTERN` with `&amp;`
/// read as `&`, parsed as a URL.
pub open spec fn hub_links(matches: Seq<Seq<char>>) -> Seq<Option<UrlView>> {
    matches.map_values(|m: Seq<char>| url_parse(replace_all(m, "&amp;"@, "&"@)))
}

/// The notebook experiences that the learning hub page `body` links to;
/// none where the link pattern does not compile. What follows the calls is
/// `experiences_from_links`.
pub fn parse_hub_experiences(body: &str) -> (r: Vec<HubExperience>)
    ensures
        match regex_found(HUB_LINK_PATTERN@, body@) {
            None => r@.len() == 0,
            Some(ms) => experience_views(r@) == experiences_of(hub_links(ms)),
        },
{
    let matches = match regex_find_all(HUB_LINK_PATTERN, body) {
        Ok(m) => m,
        Err(_) => return Vec::new(),
    };
    let ghost mv = crate::foreign::strings_view(matches@);
    let amp = chars_of("&amp;");
    let and = chars_of("&");
    proof {
        reveal_strlit("&amp;");
    }
    let mut links: Vec<Option<UrlParts>> = Vec::new();
    let mut i: usize = 0;
    while i < matches.len()
        invariant
            i <= matches.len(),
            mv == crate::foreign::strings_view(matches@),
            amp@ == "&amp;"@,
            amp@.len() == 5,
            and@ == "&"@,
            url_views(links@) == hub_links(mv.take(i as int)),
        decreases matches.len() - i,
    {
        let raw = string_of(&replace_all_chars(&chars_of(matches[i].as_str()), &amp, &and));
        let ghost before = url_views(links@);
        let parsed = parse_url(raw.as_str());
        links.push(parsed);
        proof {
            assert(url_views(links@) =~= before.push(url_parse(raw@)));
            assert(hub_links(mv.take(i + 1)) =~= hub_links(mv.take(i as int)).push(
                url_parse(replace_all(mv[i as int], "&amp;"@, "&"@)),
            ));
        }
        i += 1;
    }
    assert(mv.take(matches.len() as int) == mv);
    experiences_from_links(&links)
}

/// The hub offers each notebook once, and every experience it offers names
/// a repository, a path and a file, with a lifetime and a disk size.
pub proof fn lemma_experiences_distinct(links: Seq<Option<UrlView>>)
    ensures
        forall|i: int, j: int|
            0 <= i < j < experiences_of(links).len() ==> !same_notebook(
                #[trigger] experiences_of(links)[i],
                #[trigger] experiences_of(links)[j],
            ),
        forall|i: int|
            0 <= i < experiences_of(links).len() ==> {
                let e = #[trigger] experiences_of(links)[i];
                e.repo_url.len() > 0 && e.notebook_path.len() > 0 && e.scan_file_path.len() > 0
                    && e.ttl.len() > 0 && e.disk_size.len() > 0
            },
    decreases links.len(),
{
    if links.len() > 0 {
        lemma_experiences_distinct(links.drop_last());
        let prev = experiences_of(links.drop_last());
        match links.last() {
            None => {},
            Some(u) => match experience_of(u.query) {
                None => {},
                Some(e) => {
                    reveal_strlit("120");
                    reveal_strlit("40Gi");
                    if !offered(prev, e) {
                        let cur = prev.push(e);
                        assert forall|i: int, j: int|
                            0 <= i < j < cur.len() implies !same_notebook(
                            #[trigger] cur[i],
                            #[trigger] cur[j],
                        ) by {
                            if j == prev.len() {
                                assert(cur[i] == prev[i]);
                                if same_notebook(prev[i], e) {
                                    assert(offered(prev, e));
                                }
                            } else {
                                assert(cur[i] == prev[i]);
                                assert(cur[j] == prev[j]);
                            }
                        }
                        assert forall|i: int| 0 <= i < cur.len() implies {
                            let x = #[trigger] cur[i];
                            x.repo_url.len() > 0 && x.notebook_path.len() > 0
                                && x.scan_file_path.len() > 0 && x.ttl.len() > 0
                                && x.disk_size.len() > 0
                        } by {
                            if i < prev.len() {
                                assert(cur[i] == prev[i]);
                            }
                        }
                    }
                },
            },
        }
    }
}

} // verus!
