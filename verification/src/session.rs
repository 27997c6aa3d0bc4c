//! Notebook sessions, one per learning-hub experience index: which session
//! a command gets, and how a session is marked busy with a heavy command.
//!
//! Times are microseconds since the Unix epoch.
use crate::config::str_eq;
use crate::foreign::pairs_view;
use crate::notebook::{is_notebook_href, ExperienceModel, HubExperience, NOTEBOOK_HOST};
use crate::text::{
    append_str, contains, chars_of, lex_less, lex_lt, parse_unsigned, parse_unsigned_chars, string_of,
    trim, trim_chars,
};
use vstd::prelude::*;

verus! {

/// What the daemon remembers of one session.
pub struct Session {
    pub id: String,
    pub experience_index: Option<usize>,
    pub ok: Option<bool>,
    pub configured: Option<bool>,
    pub reason: Option<String>,
    pub heavy: Option<bool>,
    pub heavy_owner: Option<String>,
    pub heavy_since: Option<i64>,
    /// When a heavy mark runs out; `None` for a mark without end.
    pub heavy_until: Option<i64>,
    pub last_used: Option<i64>,
    pub time: Option<i64>,
    /// The notebook of the session's last good probe, field by field.
    pub details: Vec<(String, String)>,
}

/// A `Session` as plain values.
pub struct SessionModel {
    pub id: Seq<char>,
    pub experience_index: Option<usize>,
    pub ok: Option<bool>,
    pub configured: Option<bool>,
    pub reason: Option<Seq<char>>,
    pub heavy: Option<bool>,
    pub heavy_owner: Option<Seq<char>>,
    pub heavy_since: Option<i64>,
    pub heavy_until: Option<i64>,
    pub last_used: Option<i64>,
    pub time: Option<i64>,
    pub details: Seq<(Seq<char>, Seq<char>)>,
}

pub open spec fn opt_text(o: Option<String>) -> Option<Seq<char>> {
    match o {
        Some(s) => Some(s@),
        None => None,
    }
}

impl View for Session {
    type V = SessionModel;

    open spec fn view(&self) -> SessionModel {
        SessionModel {
            id: self.id@,
            experience_index: self.experience_index,
            ok: self.ok,
            configured: self.configured,
            reason: opt_text(self.reason),
            heavy: self.heavy,
            heavy_owner: opt_text(self.heavy_owner),
            heavy_since: self.heavy_since,
            heavy_until: self.heavy_until,
            last_used: self.last_used,
            time: self.time,
            details: pairs_view(self.details@),
        }
    }
}

fn clone_text(o: &Option<String>) -> (r: Option<String>)
    ensures
        opt_text(r) == opt_text(*o),
{
    match o {
        Some(s) => Some(s.clone()),
        None => None,
    }
}

fn clone_pairs(v: &Vec<(String, String)>) -> (r: Vec<(String, String)>)
    ensures
        pairs_view(r@) == pairs_view(v@),
{
    let mut r: Vec<(String, String)> = Vec::new();
    let mut i: usize = 0;
    while i < v.len()
        invariant
            i <= v.len(),
            pairs_view(r@) == pairs_view(v@).take(i as int),
        decreases v.len() - i,
    {
        let ghost before = pairs_view(r@);
        r.push((v[i].0.clone(), v[i].1.clone()));
        assert(pairs_view(r@) =~= before.push(pairs_view(v@)[i as int]));
        assert(pairs_view(v@).take(i + 1) =~= pairs_view(v@).take(i as int).push(
            pairs_view(v@)[i as int],
        ));
        i += 1;
    }
    assert(pairs_view(v@).take(v.len() as int) == pairs_view(v@));
    r
}

impl Session {
    /// A copy with the same content.
    pub fn duplicate(&self) -> (r: Session)
        ensures
            r@ == self@,
    {
        Session {
            id: self.id.clone(),
            experience_index: self.experience_index,
            ok: self.ok,
            configured: self.configured,
            reason: clone_text(&self.reason),
            heavy: self.heavy,
            heavy_owner: clone_text(&self.heavy_owner),
            heavy_since: self.heavy_since,
            heavy_until: self.heavy_until,
            last_used: self.last_used,
            time: self.time,
            details: clone_pairs(&self.details),
        }
    }

    /// A session that nothing is known of yet.
    pub fn empty(id: &str) -> (r: Session)
        ensures
            r@ == empty_session(id@),
    {
        let r = Session {
            id: id.to_owned(),
            experience_index: None,
            ok: None,
            configured: None,
            reason: None,
            heavy: None,
            heavy_owner: None,
            heavy_since: None,
            heavy_until: None,
            last_used: None,
            time: None,
            details: Vec::new(),
        };
        assert(r@.details =~= Seq::<(Seq<char>, Seq<char>)>::empty());
        r
    }
}

pub open spec fn empty_session(id: Seq<char>) -> SessionModel {
    SessionModel {
        id,
        experience_index: None,
        ok: None,
        configured: None,
        reason: None,
        heavy: None,
        heavy_owner: None,
        heavy_since: None,
        heavy_until: None,
        last_used: None,
        time: None,
        details: Seq::empty(),
    }
}

// ---------------------------------------------------------------------------
// Session ids
// ---------------------------------------------------------------------------

/// A session id is the hub experience index it stands for.
pub open spec fn session_index(id: Seq<char>) -> Option<nat> {
    parse_unsigned(id, usize::MAX as nat)
}

/// Why a session request fails.
pub enum SessionError {
    /// The id is not an experience index.
    BadSessionId(String),
    /// No session is configured or known.
    NoSessions,
    /// The requested session is already busy with a heavy command.
    AlreadyHeavy(String),
    /// Every session is busy with a heavy command.
    NoFreeSession,
    /// The hub lists no experience at this index, and nothing is stored of
    /// the session.
    ExperienceUnavailable(usize),
    /// The hub's experiences could not be read, and nothing is stored of
    /// the session.
    ExperienceLookupFailed(usize, String),
}

/// Reads the experience index that a session id stands for.
pub fn parse_session_id(session_id: &str) -> (r: Result<usize, SessionError>)
    ensures
        match session_index(session_id@) {
            Some(n) => r matches Ok(x) && x == n,
            None => r matches Err(SessionError::BadSessionId(e)) && e@ == session_id@,
        },
{
    match parse_unsigned_chars(&chars_of(session_id), usize::MAX as u64) {
        Some(n) => Ok(n as usize),
        None => Err(SessionError::BadSessionId(session_id.to_owned())),
    }
}

/// The position of a session in listings: by experience index (ids that
/// are none come last), then by id.
pub open spec fn order_index(id: Seq<char>) -> nat {
    match session_index(id) {
        Some(n) => n,
        None => usize::MAX as nat,
    }
}

/// `a` comes before `b` in listings.
pub open spec fn listed_before(a: Seq<char>, b: Seq<char>) -> bool {
    order_index(a) < order_index(b) || (order_index(a) == order_index(b) && lex_lt(a, b))
}

/// The key a session is listed by: its experience index (the largest
/// `usize` for an id that is none) and its id.
pub fn session_sort_key(id: &str) -> (r: (usize, String))
    ensures
        r.0 == order_index(id@),
        r.1@ == id@,
{
    let n = match parse_unsigned_chars(&chars_of(id), usize::MAX as u64) {
        Some(n) => n as usize,
        None => usize::MAX,
    };
    (n, id.to_owned())
}

fn listed_before_exec(a: &str, b: &str) -> (r: bool)
    ensures
        r == listed_before(a@, b@),
{
    let ka = session_sort_key(a);
    let kb = session_sort_key(b);
    if ka.0 != kb.0 {
        ka.0 < kb.0
    } else {
        lex_less(&chars_of(a), &chars_of(b))
    }
}

// ---------------------------------------------------------------------------
// Heavy marks
// ---------------------------------------------------------------------------

/// The session is busy with a heavy command at `now`: it is marked heavy,
/// and the mark has no end or ends after `now`.
pub open spec fn is_heavy(s: SessionModel, now: i64) -> bool {
    s.heavy == Some(true) && match s.heavy_until {
        Some(until) => until > now,
        None => true,
    }
}

/// `s` with a heavy mark that has run out taken off.
pub open spec fn cleared(s: SessionModel, now: i64) -> SessionModel {
    if s.heavy == Some(true) && !is_heavy(s, now) {
        SessionModel {
            heavy: Some(false),
            heavy_owner: None,
            heavy_since: None,
            heavy_until: None,
            ..s
        }
    } else {
        s
    }
}

/// The end of a heavy mark set at `now` for `lease` (at least a second).
pub open spec fn lease_end(now: i64, lease: u64) -> i64 {
    let l: int = if lease < 1_000_000 {
        1_000_000
    } else {
        lease as int
    };
    if now + l > i64::MAX {
        i64::MAX
    } else {
        (now + l) as i64
    }
}

fn owner_name(prefix: &str, token: &str) -> (r: String)
    ensures
        r@ == prefix@ + token@,
{
    let mut v = chars_of(prefix);
    append_str(&mut v, token);
    string_of(&v)
}

fn lease_end_exec(now: i64, lease: u64) -> (r: i64)
    ensures
        r == lease_end(now, lease),
{
    let l: u64 = if lease < 1_000_000 {
        1_000_000
    } else {
        lease
    };
    let sum: i128 = (now as i128) + (l as i128);
    if sum > (i64::MAX as i128) {
        i64::MAX
    } else {
        sum as i64
    }
}


/// A request names a session that is no experience index.
pub open spec fn bad_request(req: Option<Seq<char>>) -> bool {
    match req {
        Some(q) => !blank(q) && session_index(q) is None,
        None => false,
    }
}

/// `s` holds nothing but white space.
pub open spec fn blank(s: Seq<char>) -> bool {
    trim(s).len() == 0
}

pub open spec fn valid_id(id: Seq<char>) -> bool {
    session_index(id) is Some
}

pub open spec fn opt_str(o: Option<&str>) -> Option<Seq<char>> {
    match o {
        Some(s) => Some(s@),
        None => None,
    }
}

pub open spec fn strings_of(v: Seq<String>) -> Seq<Seq<char>> {
    v.map_values(|s: String| s@)
}

/// The ids a command may be given before their form is checked: the
/// requested one when it is not blank, else the configured and known ones.
pub open spec fn listed(
    id: Seq<char>,
    requested: Option<Seq<char>>,
    configured: Seq<Seq<char>>,
    m: Map<Seq<char>, SessionModel>,
) -> bool {
    match requested {
        Some(q) if !blank(q) => id == q,
        _ => configured.contains(id) || m.contains_key(id),
    }
}

/// The ids a command may be given: those listed that are experience
/// indexes.
pub open spec fn candidate(
    id: Seq<char>,
    requested: Option<Seq<char>>,
    configured: Seq<Seq<char>>,
    m: Map<Seq<char>, SessionModel>,
) -> bool {
    listed(id, requested, configured, m) && valid_id(id)
}

/// The candidates a command may be given now: for a heavy command, only
/// those not busy with another.
pub open spec fn available(
    id: Seq<char>,
    requested: Option<Seq<char>>,
    configured: Seq<Seq<char>>,
    m: Map<Seq<char>, SessionModel>,
    heavy: bool,
    now: i64,
) -> bool {
    candidate(id, requested, configured, m) && (!heavy || !is_heavy(entry_or_empty(m, id), now))
}

/// When a session was last used; 0 if never.
pub open spec fn used(m: Map<Seq<char>, SessionModel>, id: Seq<char>) -> int {
    match entry_or_empty(m, id).last_used {
        Some(t) => t as int,
        None => 0,
    }
}

/// `a` is given out before `b`: it was used longer ago, or as long ago and
/// it is listed first.
pub open spec fn picked_before(m: Map<Seq<char>, SessionModel>, a: Seq<char>, b: Seq<char>) -> bool {
    used(m, a) < used(m, b) || (used(m, a) == used(m, b) && listed_before(a, b))
}

proof fn lemma_picked_transitive(
    m: Map<Seq<char>, SessionModel>,
    a: Seq<char>,
    b: Seq<char>,
    c: Seq<char>,
)
    requires
        picked_before(m, a, b),
        picked_before(m, b, c),
    ensures
        picked_before(m, a, c),
{
    if used(m, a) == used(m, b) && used(m, b) == used(m, c) {
        if order_index(a) == order_index(b) && order_index(b) == order_index(c) {
            crate::text::lemma_lex_transitive(a, b, c);
        }
    }
}

proof fn lemma_picked_total(m: Map<Seq<char>, SessionModel>, a: Seq<char>, b: Seq<char>)
    requires
        a != b,
    ensures
        picked_before(m, a, b) || picked_before(m, b, a),
{
    if used(m, a) == used(m, b) && order_index(a) == order_index(b) {
        crate::text::lemma_lex_total(a, b);
    }
}

/// The session a command was given: marked used now, and for a heavy
/// command busy until the lease ends, under the pending owner `token`.
pub open spec fn acquired(
    e: SessionModel,
    id: Seq<char>,
    heavy: bool,
    lease: u64,
    now: i64,
    token: Seq<char>,
) -> SessionModel {
    let base = SessionModel {
        id,
        experience_index: Some(session_index(id).unwrap() as usize),
        last_used: Some(now),
        heavy: if e.heavy is None {
            Some(false)
        } else {
            e.heavy
        },
        ..e
    };
    if heavy {
        SessionModel {
            heavy: Some(true),
            heavy_owner: Some("pending-"@ + token),
            heavy_since: Some(now),
            heavy_until: Some(lease_end(now, lease)),
            ..base
        }
    } else {
        base
    }
}

// ---------------------------------------------------------------------------
// The table
// ---------------------------------------------------------------------------

pub open spec fn has_id(v: Seq<SessionModel>, id: Seq<char>) -> bool {
    exists|i: int| 0 <= i < v.len() && (#[trigger] v[i]).id == id
}

/// No two sessions share an id.
pub open spec fn unique_ids(v: Seq<SessionModel>) -> bool {
    forall|i: int, j: int|
        0 <= i < v.len() && 0 <= j < v.len() && i != j ==> (#[trigger] v[i]).id != (
        #[trigger] v[j]).id
}

/// The sessions of `v` by id.
pub open spec fn session_map(v: Seq<SessionModel>) -> Map<Seq<char>, SessionModel> {
    Map::new(
        |id: Seq<char>| has_id(v, id),
        |id: Seq<char>| v[choose|i: int| 0 <= i < v.len() && v[i].id == id],
    )
}

/// The session with this id, or an empty one.
pub open spec fn entry_or_empty(m: Map<Seq<char>, SessionModel>, id: Seq<char>) -> SessionModel {
    if m.contains_key(id) {
        m[id]
    } else {
        empty_session(id)
    }
}

/// Every session of `m` with run-out heavy marks taken off.
pub open spec fn cleared_map(m: Map<Seq<char>, SessionModel>, now: i64) -> Map<
    Seq<char>,
    SessionModel,
> {
    m.map_values(|s: SessionModel| cleared(s, now))
}

proof fn lemma_map_update(v: Seq<SessionModel>, i: int, s: SessionModel)
    requires
        unique_ids(v),
        0 <= i < v.len(),
        v[i].id == s.id,
    ensures
        unique_ids(v.update(i, s)),
        session_map(v.update(i, s)) == session_map(v).insert(s.id, s),
{
    let w = v.update(i, s);
    assert forall|a: int, b: int|
        0 <= a < w.len() && 0 <= b < w.len() && a != b implies (#[trigger] w[a]).id != (
        #[trigger] w[b]).id by {
        assert(w[a].id == v[a].id);
        assert(w[b].id == v[b].id);
    }
    assert forall|k| #[trigger] has_id(w, k) <==> has_id(v, k) by {
        if has_id(w, k) {
            let a = choose|a: int| 0 <= a < w.len() && w[a].id == k;
            assert(v[a].id == k);
        }
        if has_id(v, k) {
            let a = choose|a: int| 0 <= a < v.len() && v[a].id == k;
            assert(w[a].id == k);
        }
    }
    assert forall|k| #[trigger] has_id(w, k) implies session_map(w)[k] == session_map(v).insert(
        s.id,
        s,
    )[k] by {
        let a = choose|a: int| 0 <= a < w.len() && w[a].id == k;
        let b = choose|b: int| 0 <= b < v.len() && v[b].id == k;
        assert(v[a].id == k);
        assert(a == b);
        if k == s.id {
            assert(a == i);
        }
    }
    assert(session_map(w) =~= session_map(v).insert(s.id, s));
}

proof fn lemma_map_push(v: Seq<SessionModel>, s: SessionModel)
    requires
        unique_ids(v),
        !has_id(v, s.id),
    ensures
        unique_ids(v.push(s)),
        session_map(v.push(s)) == session_map(v).insert(s.id, s),
{
    let w = v.push(s);
    assert forall|a: int, b: int|
        0 <= a < w.len() && 0 <= b < w.len() && a != b implies (#[trigger] w[a]).id != (
        #[trigger] w[b]).id by {
        if a == v.len() {
            assert(v[b].id != s.id);
        } else if b == v.len() {
            assert(v[a].id != s.id);
        } else {
            assert(w[a] == v[a]);
            assert(w[b] == v[b]);
        }
    }
    assert forall|k| #[trigger] has_id(w, k) <==> (has_id(v, k) || k == s.id) by {
        if has_id(w, k) {
            let a = choose|a: int| 0 <= a < w.len() && w[a].id == k;
            if a < v.len() {
                assert(v[a].id == k);
            }
        }
        if has_id(v, k) {
            let a = choose|a: int| 0 <= a < v.len() && v[a].id == k;
            assert(w[a].id == k);
        }
        if k == s.id {
            assert(w[v.len() as int].id == k);
        }
    }
    assert forall|k| #[trigger] has_id(w, k) implies session_map(w)[k] == session_map(v).insert(
        s.id,
        s,
    )[k] by {
        let a = choose|a: int| 0 <= a < w.len() && w[a].id == k;
        if k == s.id {
            assert(a == v.len());
        } else {
            let b = choose|b: int| 0 <= b < v.len() && v[b].id == k;
            assert(w[b].id == k);
            assert(a == b);
        }
    }
    assert(session_map(w) =~= session_map(v).insert(s.id, s));
}

/// The sessions the daemon knows.
pub struct SessionTable {
    sessions: Vec<Session>,
}

pub open spec fn models(v: Seq<Session>) -> Seq<SessionModel> {
    v.map_values(|s: Session| s@)
}

impl View for SessionTable {
    type V = Seq<SessionModel>;

    closed spec fn view(&self) -> Seq<SessionModel> {
        models(self.sessions@)
    }
}

impl SessionTable {
    /// The table's invariant: no two sessions share an id.
    pub open spec fn wf(&self) -> bool {
        unique_ids(self@)
    }

    /// The sessions by id.
    pub open spec fn map(&self) -> Map<Seq<char>, SessionModel> {
        session_map(self@)
    }

    pub fn new() -> (r: Self)
        ensures
            r.wf(),
            r.map() == Map::<Seq<char>, SessionModel>::empty(),
    {
        let r = SessionTable { sessions: Vec::new() };
        assert(r@ =~= Seq::<SessionModel>::empty());
        assert(r.map() =~= Map::<Seq<char>, SessionModel>::empty());
        r
    }

    fn index_of(&self, id: &str) -> (r: Option<usize>)
        ensures
            r matches Some(i) ==> i < self@.len() && self@[i as int].id == id@,
            r is None ==> !has_id(self@, id@),
    {
        let mut i: usize = 0;
        while i < self.sessions.len()
            invariant
                i <= self.sessions.len(),
                self@ == models(self.sessions@),
                forall|k: int| 0 <= k < i ==> (#[trigger] self@[k]).id != id@,
            decreases self.sessions.len() - i,
        {
            if str_eq(self.sessions[i].id.as_str(), id) {
                return Some(i);
            }
            i += 1;
        }
        None
    }

    /// The session with this id, or an empty one.
    pub fn entry(&self, id: &str) -> (r: Session)
        requires
            self.wf(),
        ensures
            r@ == entry_or_empty(self.map(), id@),
    {
        match self.index_of(id) {
            Some(i) => {
                proof {
                    let k = choose|k: int| 0 <= k < self@.len() && self@[k].id == id@;
                    assert(k == i);
                }
                self.sessions[i].duplicate()
            },
            None => Session::empty(id),
        }
    }

    /// Puts `s` in place of the session with its id, or adds it.
    fn put(&mut self, s: Session)
        requires
            old(self).wf(),
        ensures
            final(self).wf(),
            final(self).map() == old(self).map().insert(s@.id, s@),
    {
        let ghost before = self@;
        match self.index_of(s.id.as_str()) {
            Some(i) => {
                proof {
                    lemma_map_update(before, i as int, s@);
                }
                self.sessions.set(i, s);
                assert(self@ =~= before.update(i as int, s@));
            },
            None => {
                proof {
                    lemma_map_push(before, s@);
                }
                self.sessions.push(s);
                assert(self@ =~= before.push(s@));
            },
        }
    }

    /// Takes off the heavy marks that have run out at `now`.
    pub fn clear_expired_heavy(&mut self, now: i64)
        requires
            old(self).wf(),
        ensures
            final(self).wf(),
            final(self).map() == cleared_map(old(self).map(), now),
    {
        let ghost before = self@;
        let mut i: usize = 0;
        while i < self.sessions.len()
            invariant
                i <= self.sessions.len(),
                before.len() == self.sessions.len(),
                unique_ids(before),
                forall|k: int| 0 <= k < i ==> (#[trigger] self@[k]) == cleared(before[k], now),
                forall|k: int| i <= k < self.sessions.len() ==> (#[trigger] self@[k]) == before[k],
            decreases self.sessions.len() - i,
        {
            let s = &self.sessions[i];
            assert(s@ == self@[i as int]);
            let until_passed = match s.heavy_until {
                Some(u) => u <= now,
                None => false,
            };
            if s.heavy == Some(true) && until_passed {
                let mut c = s.duplicate();
                c.heavy = Some(false);
                c.heavy_owner = None;
                c.heavy_since = None;
                c.heavy_until = None;
                assert(c@ == cleared(before[i as int], now));
                let ghost cur = self@;
                self.sessions.set(i, c);
                assert(self@ =~= cur.update(i as int, c@));
            } else {
                assert(cleared(before[i as int], now) == before[i as int]);
            }
            i += 1;
        }
        proof {
            assert(self@.len() == before.len());
            assert forall|a: int, b: int|
                0 <= a < self@.len() && 0 <= b < self@.len() && a != b implies (#[trigger] self@[a]).id
                != (#[trigger] self@[b]).id by {
                assert(self@[a].id == before[a].id);
                assert(self@[b].id == before[b].id);
            }
            assert forall|k| #[trigger] has_id(self@, k) <==> has_id(before, k) by {
                if has_id(self@, k) {
                    let a = choose|a: int| 0 <= a < self@.len() && self@[a].id == k;
                    assert(before[a].id == k);
                }
                if has_id(before, k) {
                    let a = choose|a: int| 0 <= a < before.len() && before[a].id == k;
                    assert(self@[a].id == k);
                }
            }
            assert forall|k| #[trigger] has_id(self@, k) implies session_map(self@)[k]
                == cleared_map(session_map(before), now)[k] by {
                let a = choose|a: int| 0 <= a < self@.len() && self@[a].id == k;
                let b = choose|b: int| 0 <= b < before.len() && before[b].id == k;
                assert(before[a].id == k);
                assert(a == b);
            }
            assert(session_map(self@) =~= cleared_map(session_map(before), now));
        }
    }

    /// Whether the session with this id is busy with a heavy command.
    pub fn is_heavy_at(&self, id: &str, now: i64) -> (r: bool)
        requires
            self.wf(),
        ensures
            r == is_heavy(entry_or_empty(self.map(), id@), now),
    {
        let e = self.entry(id);
        e.heavy == Some(true) && match e.heavy_until {
            Some(until) => until > now,
            None => true,
        }
    }

    /// When the session with this id was last used (0 if never).
    fn used_at(&self, id: &str) -> (r: i64)
        requires
            self.wf(),
        ensures
            r == used(self.map(), id@),
    {
        match self.entry(id).last_used {
            Some(t) => t,
            None => 0,
        }
    }

    fn picked_before_exec(&self, a: &str, b: &str) -> (r: bool)
        requires
            self.wf(),
        ensures
            r == picked_before(self.map(), a@, b@),
    {
        let ua = self.used_at(a);
        let ub = self.used_at(b);
        if ua != ub {
            ua < ub
        } else {
            listed_before_exec(a, b)
        }
    }

    /// The ids a command may be given, before checking that they are
    /// experience indexes: the requested one, or the configured and known
    /// ones.
    fn candidate_ids(&self, requested: Option<&str>, configured: &Vec<String>) -> (r: Vec<String>)
        ensures
            forall|id: Seq<char>|
                #[trigger] strings_of(r@).contains(id) <==> listed(
                    id,
                    opt_str(requested),
                    strings_of(configured@),
                    self.map(),
                ),
    {
        let mut r: Vec<String> = Vec::new();
        match requested {
            Some(q) => {
                if trim_chars(&chars_of(q)).len() > 0 {
                    r.push(q.to_owned());
                    proof {
                        assert(strings_of(r@) =~= seq![q@]);
                        assert forall|id: Seq<char>| #[trigger] strings_of(r@).contains(id) <==> id
                            == q@ by {
                            if id == q@ {
                                assert(strings_of(r@)[0] == id);
                            }
                        }
                    }
                    return r;
                }
            },
            None => {},
        }
        let mut i: usize = 0;
        while i < configured.len()
            invariant
                i <= configured.len(),
                strings_of(r@) == strings_of(configured@).take(i as int),
            decreases configured.len() - i,
        {
            let ghost before = strings_of(r@);
            r.push(configured[i].clone());
            assert(strings_of(r@) =~= before.push(configured@[i as int]@));
            assert(strings_of(configured@).take(i + 1) =~= strings_of(configured@).take(
                i as int,
            ).push(configured@[i as int]@));
            i += 1;
        }
        assert(strings_of(configured@).take(configured.len() as int) == strings_of(configured@));
        let ghost cs = strings_of(configured@);
        let mut j: usize = 0;
        while j < self.sessions.len()
            invariant
                j <= self.sessions.len(),
                self@ == models(self.sessions@),
                cs == strings_of(configured@),
                strings_of(r@) == cs + self@.take(j as int).map_values(|x: SessionModel| x.id),
            decreases self.sessions.len() - j,
        {
            let ghost before = strings_of(r@);
            r.push(self.sessions[j].id.clone());
            assert(strings_of(r@) =~= before.push(self@[j as int].id));
            assert(self@.take(j + 1).map_values(|x: SessionModel| x.id) =~= self@.take(
                j as int,
            ).map_values(|x: SessionModel| x.id).push(self@[j as int].id));
            j += 1;
        }
        assert(self@.take(self.sessions.len() as int) == self@);
        proof {
            let ids = self@.map_values(|x: SessionModel| x.id);
            assert forall|id: Seq<char>| #[trigger] strings_of(r@).contains(id) <==> (cs.contains(
                id,
            ) || self.map().contains_key(id)) by {
                if strings_of(r@).contains(id) {
                    let k = choose|k: int| 0 <= k < strings_of(r@).len() && strings_of(r@)[k] == id;
                    if k < cs.len() {
                        assert(cs[k] == id);
                    } else {
                        assert(ids[k - cs.len()] == id);
                        assert(self@[k - cs.len()].id == id);
                        assert(has_id(self@, id));
                    }
                }
                if cs.contains(id) {
                    let k = choose|k: int| 0 <= k < cs.len() && cs[k] == id;
                    assert(strings_of(r@)[k] == id);
                }
                if self.map().contains_key(id) {
                    let k = choose|k: int| 0 <= k < self@.len() && self@[k].id == id;
                    assert(strings_of(r@)[cs.len() + k] == id);
                }
            }
        }
        r
    }

    /// Gives a command a session: the requested one (which must be an
    /// experience index), or else any configured or known session whose id
    /// is one. A heavy command only gets a session that is not busy with
    /// another; among the sessions it may get, it gets the one used longest
    /// ago, ties going to the lower index. The session is marked used now,
    /// and for a heavy command busy until the lease ends, under a pending
    /// owner. Nothing changes when no session can be given.
    pub fn acquire_session_id(
        &mut self,
        requested: Option<&str>,
        heavy: bool,
        lease: u64,
        configured: &Vec<String>,
        now: i64,
        owner_token: &str,
    ) -> (r: Result<String, SessionError>)
        requires
            old(self).wf(),
        ensures
            final(self).wf(),
            ({
                let m = old(self).map();
                let req = opt_str(requested);
                let cs = strings_of(configured@);
                if bad_request(req) {
                    r matches Err(SessionError::BadSessionId(e)) && Some(e@) == req
                        && final(self).map() == m
                } else if !(exists|id: Seq<char>| #[trigger] candidate(id, req, cs, m)) {
                    r matches Err(SessionError::NoSessions) && final(self).map() == m
                } else if !(exists|id: Seq<char>| #[trigger] available(id, req, cs, m, heavy, now)) {
                    final(self).map() == m && match req {
                        Some(q) => r matches Err(SessionError::AlreadyHeavy(e)) && e@ == q,
                        None => r matches Err(SessionError::NoFreeSession),
                    }
                } else {
                    r matches Ok(sel) && available(sel@, req, cs, m, heavy, now) && (forall|
                        other: Seq<char>,
                    |
                        #[trigger] available(other, req, cs, m, heavy, now) && other != sel@
                            ==> picked_before(m, sel@, other)) && final(self).map()
                        == cleared_map(m, now).insert(
                        sel@,
                        acquired(
                            entry_or_empty(cleared_map(m, now), sel@),
                            sel@,
                            heavy,
                            lease,
                            now,
                            owner_token@,
                        ),
                    )
                }
            }),
    {
        let ghost m = self.map();
        let ghost req = opt_str(requested);
        let ghost cs = strings_of(configured@);
        match requested {
            Some(q) => {
                if trim_chars(&chars_of(q)).len() > 0 && parse_session_id(q).is_err() {
                    return Err(SessionError::BadSessionId(q.to_owned()));
                }
            },
            None => {},
        }
        let list = self.candidate_ids(requested, configured);
        let ghost lv = strings_of(list@);
        let mut any_candidate = false;
        let mut best: Option<String> = None;
        let mut i: usize = 0;
        while i < list.len()
            invariant
                i <= list.len(),
                self.wf(),
                m == self.map(),
                lv == strings_of(list@),
                forall|id: Seq<char>| #[trigger] lv.contains(id) <==> listed(id, req, cs, m),
                any_candidate <==> exists|k: int| 0 <= k < i && #[trigger] valid_id(lv[k]),
                match best {
                    Some(b) => available(b@, req, cs, m, heavy, now) && (forall|k: int|
                        0 <= k < i && #[trigger] available(lv[k], req, cs, m, heavy, now)
                            && lv[k] != b@ ==> picked_before(m, b@, lv[k])),
                    None => forall|k: int|
                        0 <= k < i ==> !#[trigger] available(lv[k], req, cs, m, heavy, now),
                },
            decreases list.len() - i,
        {
            let id = list[i].as_str();
            assert(id@ == lv[i as int]);
            assert(lv.contains(lv[i as int]));
            if parse_session_id(id).is_ok() {
                any_candidate = true;
                if !heavy || !self.is_heavy_at(id, now) {
                    assert(available(lv[i as int], req, cs, m, heavy, now));
                    let take = match &best {
                        None => true,
                        Some(b) => self.picked_before_exec(id, b.as_str()),
                    };
                    proof {
                        match &best {
                            Some(b) => {
                                if take {
                                    assert forall|k: int|
                                        0 <= k < i + 1 && #[trigger] available(lv[k], req, cs, m, heavy, now)
                                            && lv[k] != id@ implies picked_before(m, id@, lv[k]) by {
                                        if k < i {
                                            if lv[k] != b@ {
                                                lemma_picked_transitive(m, id@, b@, lv[k]);
                                            }
                                        }
                                    }
                                } else {
                                    if id@ != b@ {
                                        lemma_picked_total(m, id@, b@);
                                    }
                                }
                            },
                            None => {},
                        }
                    }
                    if take {
                        best = Some(id.to_owned());
                    }
                }
            }
            i += 1;
        }
        proof {
            assert forall|id: Seq<char>| #[trigger] candidate(id, req, cs, m) implies any_candidate by {
                assert(lv.contains(id));
                let k = choose|k: int| 0 <= k < lv.len() && lv[k] == id;
                assert(valid_id(lv[k]));
            }
            if any_candidate {
                let k = choose|k: int| 0 <= k < lv.len() && valid_id(lv[k]);
                assert(lv.contains(lv[k]));
                assert(candidate(lv[k], req, cs, m));
            }
        }
        if !any_candidate {
            return Err(SessionError::NoSessions);
        }
        let sel = match best {
            Some(b) => b,
            None => {
                proof {
                    assert forall|id: Seq<char>|
                        !#[trigger] available(id, req, cs, m, heavy, now) by {
                        if available(id, req, cs, m, heavy, now) {
                            assert(lv.contains(id));
                            let k = choose|k: int| 0 <= k < lv.len() && lv[k] == id;
                            assert(available(lv[k], req, cs, m, heavy, now));
                        }
                    }
                }
                return match requested {
                    Some(q) => Err(SessionError::AlreadyHeavy(q.to_owned())),
                    None => Err(SessionError::NoFreeSession),
                };
            },
        };
        proof {
            assert forall|other: Seq<char>|
                #[trigger] available(other, req, cs, m, heavy, now) && other != sel@ implies picked_before(m, sel@, other) by {
                assert(lv.contains(other));
                let k = choose|k: int| 0 <= k < lv.len() && lv[k] == other;
                assert(available(lv[k], req, cs, m, heavy, now));
            }
        }
        self.clear_expired_heavy(now);
        let mut e = self.entry(sel.as_str());
        let index = match parse_session_id(sel.as_str()) {
            Ok(n) => n,
            Err(_) => 0,
        };
        e.id = sel.clone();
        e.experience_index = Some(index);
        e.last_used = Some(now);
        if e.heavy.is_none() {
            e.heavy = Some(false);
        }
        if heavy {
            e.heavy = Some(true);
            e.heavy_owner = Some(owner_name("pending-", owner_token));
            e.heavy_since = Some(now);
            e.heavy_until = Some(lease_end_exec(now, lease));
        }
        self.put(e);
        Ok(sel)
    }

    /// Marks a session busy with a heavy command for `lease`, under the
    /// owner `auto-<token>`, which it returns. A mark that the session
    /// already carries is replaced, unless it was set by hand.
    pub fn mark_auto_heavy(&mut self, id: &str, lease: u64, now: i64, token: &str) -> (r: Result<
        String,
        SessionError,
    >)
        requires
            old(self).wf(),
        ensures
            final(self).wf(),
            ({
                let m = old(self).map();
                let e = entry_or_empty(cleared_map(m, now), id@);
                if is_heavy(e, now) && e.heavy_owner == Some("manual"@) {
                    r matches Err(SessionError::AlreadyHeavy(x)) && x@ == id@ && final(self).map()
                        == m
                } else if session_index(id@) is None {
                    r matches Err(SessionError::BadSessionId(x)) && x@ == id@ && final(self).map()
                        == m
                } else {
                    r matches Ok(owner) && owner@ == "auto-"@ + token@ && final(self).map()
                        == cleared_map(m, now).insert(
                        id@,
                        SessionModel {
                            id: id@,
                            experience_index: Some(session_index(id@).unwrap() as usize),
                            heavy: Some(true),
                            heavy_owner: Some(owner@),
                            heavy_since: Some(now),
                            heavy_until: Some(lease_end(now, lease)),
                            last_used: Some(now),
                            ..e
                        },
                    )
                }
            }),
    {
        let ghost m = self.map();
        let probe_heavy = self.is_heavy_at(id, now);
        let current = self.entry(id);
        proof {
            lemma_clearing_keeps_heavy(entry_or_empty(m, id@), now);
            assert(entry_or_empty(cleared_map(m, now), id@) == cleared(entry_or_empty(m, id@), now));
        }
        let manual = match &current.heavy_owner {
            Some(o) => str_eq(o.as_str(), "manual"),
            None => false,
        };
        proof {
            reveal_strlit("manual");
        }
        if probe_heavy && manual {
            return Err(SessionError::AlreadyHeavy(id.to_owned()));
        }
        let index = match parse_session_id(id) {
            Ok(n) => n,
            Err(e) => return Err(e),
        };
        self.clear_expired_heavy(now);
        let mut e = self.entry(id);
        let owner = owner_name("auto-", token);
        e.id = id.to_owned();
        e.experience_index = Some(index);
        e.heavy = Some(true);
        e.heavy_owner = Some(owner.clone());
        e.heavy_since = Some(now);
        e.heavy_until = Some(lease_end_exec(now, lease));
        e.last_used = Some(now);
        self.put(e);
        Ok(owner)
    }

    /// Takes the heavy mark off a session, but only for the owner that set
    /// it.
    pub fn release_auto_heavy(&mut self, id: &str, owner: &str, now: i64)
        requires
            old(self).wf(),
        ensures
            final(self).wf(),
            ({
                let m = old(self).map();
                if m.contains_key(id@) && m[id@].heavy_owner == Some(owner@) {
                    final(self).map() == m.insert(
                        id@,
                        SessionModel {
                            heavy: Some(false),
                            heavy_owner: None,
                            heavy_since: None,
                            heavy_until: None,
                            time: Some(now),
                            ..m[id@]
                        },
                    )
                } else {
                    final(self).map() == m
                }
            }),
    {
        match self.index_of(id) {
            Some(i) => {
                proof {
                    let k = choose|k: int| 0 <= k < self@.len() && self@[k].id == id@;
                    assert(k == i);
                }
                let owns = match &self.sessions[i].heavy_owner {
                    Some(o) => str_eq(o.as_str(), owner),
                    None => false,
                };
                if owns {
                    let mut e = self.sessions[i].duplicate();
                    e.heavy = Some(false);
                    e.heavy_owner = None;
                    e.heavy_since = None;
                    e.heavy_until = None;
                    e.time = Some(now);
                    self.put(e);
                }
            },
            None => {},
        }
    }

    /// Marks a session heavy by hand (owner `manual`, without end), or
    /// takes its mark off, and returns the session.
    pub fn set_manual_heavy(&mut self, id: &str, heavy: bool, now: i64) -> (r: Result<
        Session,
        SessionError,
    >)
        requires
            old(self).wf(),
        ensures
            final(self).wf(),
            ({
                let m = old(self).map();
                match session_index(id@) {
                    None => r matches Err(SessionError::BadSessionId(x)) && x@ == id@
                        && final(self).map() == m,
                    Some(n) => r matches Ok(s) && s@ == SessionModel {
                        id: id@,
                        experience_index: Some(n as usize),
                        heavy: Some(heavy),
                        heavy_owner: if heavy {
                            Some("manual"@)
                        } else {
                            None
                        },
                        heavy_since: if heavy {
                            Some(now)
                        } else {
                            None
                        },
                        heavy_until: None,
                        time: Some(now),
                        ..entry_or_empty(cleared_map(m, now), id@)
                    } && final(self).map() == cleared_map(m, now).insert(id@, s@),
                }
            }),
    {
        let index = parse_session_id(id)?;
        self.clear_expired_heavy(now);
        let mut e = self.entry(id);
        e.id = id.to_owned();
        e.experience_index = Some(index);
        e.heavy = Some(heavy);
        if heavy {
            e.heavy_owner = Some("manual".to_owned());
            e.heavy_since = Some(now);
        } else {
            e.heavy_owner = None;
            e.heavy_since = None;
        }
        e.heavy_until = None;
        e.time = Some(now);
        let out = e.duplicate();
        self.put(e);
        Ok(out)
    }

    /// Records that a session's notebook failed for `reason`.
    pub fn record_session_failure(&mut self, id: &str, reason: &str, now: i64)
        requires
            old(self).wf(),
        ensures
            final(self).wf(),
            ({
                let m = old(self).map();
                let e = entry_or_empty(m, id@);
                final(self).map() == m.insert(
                    id@,
                    SessionModel {
                        id: id@,
                        experience_index: match session_index(id@) {
                            Some(n) => Some(n as usize),
                            None => e.experience_index,
                        },
                        ok: Some(false),
                        reason: Some(reason@),
                        time: Some(now),
                        ..e
                    },
                )
            }),
    {
        let mut e = self.entry(id);
        e.id = id.to_owned();
        match parse_session_id(id) {
            Ok(n) => e.experience_index = Some(n),
            Err(_) => {},
        }
        e.ok = Some(false);
        e.reason = Some(reason.to_owned());
        e.time = Some(now);
        self.put(e);
    }

    /// Records a good probe of the notebook that `spec` describes: the
    /// session's record is replaced by one that holds what the notebook is
    /// made from, then the probe's fields, keeping only its heavy mark.
    pub fn record_session_ok(&mut self, spec: &NotebookSpec, probe: Vec<(String, String)>, now: i64)
        requires
            old(self).wf(),
        ensures
            final(self).wf(),
            ({
                let m = old(self).map();
                let id = spec.session_id@;
                let old_e = entry_or_empty(m, id);
                final(self).map() == m.insert(
                    id,
                    SessionModel {
                        id,
                        experience_index: Some(spec.experience_index),
                        ok: Some(true),
                        configured: None,
                        reason: None,
                        heavy: if old_e.heavy is None {
                            Some(false)
                        } else {
                            old_e.heavy
                        },
                        heavy_owner: old_e.heavy_owner,
                        heavy_since: old_e.heavy_since,
                        heavy_until: old_e.heavy_until,
                        last_used: Some(now),
                        time: Some(now),
                        details: spec_details(spec@) + pairs_view(probe@),
                    },
                )
            }),
    {
        let old_e = self.entry(spec.session_id.as_str());
        let mut details = spec_pairs(spec);
        let ghost head = pairs_view(details@);
        let mut rest = probe;
        let ghost tail = pairs_view(rest@);
        details.append(&mut rest);
        assert(pairs_view(details@) =~= head + tail);
        let e = Session {
            id: spec.session_id.clone(),
            experience_index: Some(spec.experience_index),
            ok: Some(true),
            configured: None,
            reason: None,
            heavy: if old_e.heavy.is_none() {
                Some(false)
            } else {
                old_e.heavy
            },
            heavy_owner: old_e.heavy_owner,
            heavy_since: old_e.heavy_since,
            heavy_until: old_e.heavy_until,
            last_used: Some(now),
            time: Some(now),
            details,
        };
        self.put(e);
    }

    /// Some session's notebook was good at its last probe.
    pub fn any_ok(&self) -> (r: bool)
        requires
            self.wf(),
        ensures
            r == exists|id: Seq<char>| #[trigger] self.map().contains_key(id) && self.map()[id].ok
                == Some(true),
    {
        let mut i: usize = 0;
        while i < self.sessions.len()
            invariant
                i <= self.sessions.len(),
                self.wf(),
                self@ == models(self.sessions@),
                forall|k: int| 0 <= k < i ==> (#[trigger] self@[k]).ok != Some(true),
            decreases self.sessions.len() - i,
        {
            if self.sessions[i].ok == Some(true) {
                proof {
                    let id = self@[i as int].id;
                    assert(has_id(self@, id));
                    let k = choose|k: int| 0 <= k < self@.len() && self@[k].id == id;
                    assert(k == i);
                    assert(self.map().contains_key(id) && self.map()[id].ok == Some(true));
                }
                return true;
            }
            i += 1;
        }
        proof {
            assert forall|id: Seq<char>| #[trigger] self.map().contains_key(id) implies self.map()[id].ok != Some(true) by {
                let k = choose|k: int| 0 <= k < self@.len() && self@[k].id == id;
                assert(self@[k].ok != Some(true));
            }
        }
        false
    }
}

/// Only the owner can take a heavy mark off: a release by anyone else
/// leaves every session as it was.
pub proof fn lemma_release_only_by_owner(
    m: Map<Seq<char>, SessionModel>,
    id: Seq<char>,
    owner: Seq<char>,
    after: Map<Seq<char>, SessionModel>,
    now: i64,
)
    requires
        !(m.contains_key(id) && m[id].heavy_owner == Some(owner)),
        (if m.contains_key(id) && m[id].heavy_owner == Some(owner) {
            after == m.insert(
                id,
                SessionModel {
                    heavy: Some(false),
                    heavy_owner: None,
                    heavy_since: None,
                    heavy_until: None,
                    time: Some(now),
                    ..m[id]
                },
            )
        } else {
            after == m
        }),
    ensures
        after == m,
{
}

/// A heavy command is never given a session that another heavy command
/// holds, and the session it is given is then held until its lease ends.
pub proof fn lemma_heavy_exclusive(
    m: Map<Seq<char>, SessionModel>,
    req: Option<Seq<char>>,
    cs: Seq<Seq<char>>,
    sel: Seq<char>,
    lease: u64,
    now: i64,
    token: Seq<char>,
)
    requires
        available(sel, req, cs, m, true, now),
        now < i64::MAX,
    ensures
        !is_heavy(entry_or_empty(m, sel), now),
        is_heavy(
            acquired(entry_or_empty(cleared_map(m, now), sel), sel, true, lease, now, token),
            now,
        ),
{
}


/// Clearing keeps who is busy: a session counts as heavy after clearing
/// exactly when it did before, and no run-out mark is left.
pub proof fn lemma_clearing_keeps_heavy(s: SessionModel, now: i64)
    ensures
        is_heavy(cleared(s, now), now) == is_heavy(s, now),
        cleared(s, now).heavy == Some(true) ==> is_heavy(cleared(s, now), now),
        cleared(s, now).id == s.id,
        cleared(cleared(s, now), now) == cleared(s, now),
{
}


// ---------------------------------------------------------------------------
// Configured sessions
// ---------------------------------------------------------------------------

/// The characters that separate configured session ids.
pub open spec fn is_sep(c: char) -> bool {
    c == ',' || c == ';' || crate::text::is_ws(c)
}

/// `s` split at every separator.
pub open spec fn split_seps(s: Seq<char>) -> Seq<Seq<char>>
    decreases s.len(),
{
    if s.len() == 0 {
        seq![Seq::empty()]
    } else {
        let r = split_seps(s.drop_last());
        if is_sep(s.last()) {
            r.push(Seq::empty())
        } else {
            r.update(r.len() - 1, r.last().push(s.last()))
        }
    }
}

proof fn lemma_split_seps_nonempty(s: Seq<char>)
    ensures
        split_seps(s).len() >= 1,
    decreases s.len(),
{
    if s.len() > 0 {
        lemma_split_seps_nonempty(s.drop_last());
    }
}

/// The ids of `v` in order, each kept where it first occurs, empty ones
/// left out.
pub open spec fn distinct_ids(v: Seq<Seq<char>>) -> Seq<Seq<char>>
    decreases v.len(),
{
    if v.len() == 0 {
        Seq::empty()
    } else {
        let r = distinct_ids(v.drop_last());
        if v.last().len() == 0 || r.contains(v.last()) {
            r
        } else {
            r.push(v.last())
        }
    }
}

/// The sessions configured by `text`: its ids, separated by commas,
/// semicolons or white space, each once; the default experience index when
/// it names none.
pub open spec fn configured_ids(text: Seq<char>, default_index: usize) -> Seq<Seq<char>> {
    let ids = distinct_ids(split_seps(text));
    if ids.len() == 0 {
        seq![crate::text::decimal(default_index as nat)]
    } else {
        ids
    }
}

fn contains_text(v: &Vec<String>, x: &Vec<char>) -> (r: bool)
    ensures
        r == strings_of(v@).contains(x@),
{
    let mut i: usize = 0;
    while i < v.len()
        invariant
            i <= v.len(),
            forall|k: int| 0 <= k < i ==> strings_of(v@)[k] != x@,
        decreases v.len() - i,
    {
        if crate::text::chars_eq(&chars_of(v[i].as_str()), x) {
            assert(strings_of(v@)[i as int] == x@);
            return true;
        }
        i += 1;
    }
    false
}

pub fn configured_session_ids(text: &str, default_index: usize) -> (r: Vec<String>)
    ensures
        strings_of(r@) == configured_ids(text@, default_index),
{
    let t = chars_of(text);
    let mut out: Vec<String> = Vec::new();
    let mut cur: Vec<char> = Vec::new();
    let mut i: usize = 0;
    proof {
        assert(t@.take(0) =~= Seq::<char>::empty());
        assert(split_seps(t@.take(0)).drop_last() =~= Seq::<Seq<char>>::empty());
        assert(strings_of(out@) =~= Seq::<Seq<char>>::empty());
    }
    while i < t.len()
        invariant
            i <= t.len(),
            split_seps(t@.take(i as int)).len() >= 1,
            strings_of(out@) == distinct_ids(split_seps(t@.take(i as int)).drop_last()),
            cur@ == split_seps(t@.take(i as int)).last(),
        decreases t.len() - i,
    {
        let ghost prev = split_seps(t@.take(i as int));
        proof {
            assert(t@.take(i + 1).drop_last() == t@.take(i as int));
            assert(t@.take(i + 1).last() == t@[i as int]);
            assert(prev == prev.drop_last().push(prev.last()));
        }
        let c = t[i];
        if c == ',' || c == ';' || crate::text::is_ws_char(c) {
            let ghost before = strings_of(out@);
            if cur.len() > 0 && !contains_text(&out, &cur) {
                out.push(string_of(&cur));
                assert(strings_of(out@) =~= before.push(prev.last()));
            }
            cur = Vec::new();
            proof {
                let next = split_seps(t@.take(i + 1));
                assert(next == prev.push(Seq::empty()));
                assert(next.drop_last() == prev);
            }
        } else {
            cur.push(c);
            proof {
                let next = split_seps(t@.take(i + 1));
                assert(next == prev.update(prev.len() - 1, prev.last().push(t@[i as int])));
                assert(next.drop_last() =~= prev.drop_last());
            }
        }
        i += 1;
    }
    assert(t@.take(t.len() as int) == t@);
    let ghost all = split_seps(t@);
    proof {
        assert(all == all.drop_last().push(all.last()));
    }
    let ghost before = strings_of(out@);
    if cur.len() > 0 && !contains_text(&out, &cur) {
        out.push(string_of(&cur));
        assert(strings_of(out@) =~= before.push(all.last()));
    }
    if out.len() == 0 {
        let mut d: Vec<String> = Vec::new();
        d.push(string_of(&crate::text::decimal_chars(default_index as u64)));
        assert(strings_of(d@) =~= seq![crate::text::decimal(default_index as nat)]);
        return d;
    }
    out
}

/// The ids that `distinct_ids` keeps occur once each.
pub proof fn lemma_distinct_ids_unique(v: Seq<Seq<char>>)
    ensures
        forall|i: int, j: int|
            0 <= i < j < distinct_ids(v).len() ==> distinct_ids(v)[i] != distinct_ids(v)[j],
        forall|i: int| 0 <= i < distinct_ids(v).len() ==> #[trigger] distinct_ids(v)[i].len() > 0,
    decreases v.len(),
{
    if v.len() > 0 {
        lemma_distinct_ids_unique(v.drop_last());
        let r = distinct_ids(v.drop_last());
        if !(v.last().len() == 0 || r.contains(v.last())) {
            assert forall|i: int, j: int|
                0 <= i < j < r.push(v.last()).len() implies r.push(v.last())[i] != r.push(
                v.last(),
            )[j] by {
                if j == r.len() {
                    if r[i] == v.last() {
                        assert(r.contains(v.last()));
                    }
                }
            }
        }
    }
}

/// A configured session as it is listed: known ones are marked configured,
/// and one not known yet is added as configured, not ok and not heavy.
pub open spec fn configured_entry(m: Map<Seq<char>, SessionModel>, id: Seq<char>) -> SessionModel {
    if m.contains_key(id) {
        SessionModel { configured: Some(true), ..m[id] }
    } else {
        SessionModel {
            experience_index: match session_index(id) {
                Some(n) => Some(n as usize),
                None => None,
            },
            ok: Some(false),
            configured: Some(true),
            heavy: Some(false),
            ..empty_session(id)
        }
    }
}

proof fn lemma_listed_before_strict(a: Seq<char>, b: Seq<char>, c: Seq<char>)
    ensures
        !listed_before(a, a),
        a != b ==> listed_before(a, b) || listed_before(b, a),
        listed_before(a, b) && listed_before(b, c) ==> listed_before(a, c),
{
    crate::text::lemma_lex_irreflexive(a);
    if a != b && order_index(a) == order_index(b) {
        crate::text::lemma_lex_total(a, b);
    }
    if listed_before(a, b) && listed_before(b, c) && order_index(a) == order_index(b)
        && order_index(b) == order_index(c) {
        crate::text::lemma_lex_transitive(a, b, c);
    }
}

impl SessionTable {
    /// Marks the configured sessions (adding those not known yet), after
    /// taking off run-out heavy marks.
    pub fn mark_configured(&mut self, configured: &Vec<String>, now: i64)
        requires
            old(self).wf(),
        ensures
            final(self).wf(),
            ({
                let cm = cleared_map(old(self).map(), now);
                let cs = strings_of(configured@);
                &&& forall|id: Seq<char>| #[trigger] final(self).map().contains_key(id) <==> (
                    cm.contains_key(id) || cs.contains(id))
                &&& forall|id: Seq<char>|
                    #[trigger] cs.contains(id) ==> final(self).map()[id] == configured_entry(cm, id)
                &&& forall|id: Seq<char>|
                    cm.contains_key(id) && !cs.contains(id) ==> #[trigger] final(self).map()[id]
                        == cm[id]
            }),
    {
        self.clear_expired_heavy(now);
        let ghost cm = self.map();
        let ghost cs = strings_of(configured@);
        let mut i: usize = 0;
        while i < configured.len()
            invariant
                i <= configured.len(),
                self.wf(),
                cs == strings_of(configured@),
                forall|id: Seq<char>| #[trigger] self.map().contains_key(id) <==> (cm.contains_key(id)
                    || cs.take(i as int).contains(id)),
                forall|id: Seq<char>|
                    #[trigger] cs.take(i as int).contains(id) ==> self.map()[id] == configured_entry(cm, id),
                forall|id: Seq<char>|
                    cm.contains_key(id) && !cs.take(i as int).contains(id) ==> #[trigger] self.map()[id]
                        == cm[id],
            decreases configured.len() - i,
        {
            let id = configured[i].as_str();
            let ghost before = self.map();
            let ghost x = cs[i as int];
            assert(id@ == x);
            let known = self.index_of(id).is_some();
            let mut e = self.entry(id);
            if !known {
                e.experience_index = match parse_session_id(id) {
                    Ok(n) => Some(n),
                    Err(_) => None,
                };
                e.ok = Some(false);
                e.heavy = Some(false);
            }
            e.configured = Some(true);
            proof {
                if cs.take(i as int).contains(x) {
                    assert(before[x] == configured_entry(cm, x));
                    assert(e@ == SessionModel { configured: Some(true), ..before[x] });
                    assert(e@ == configured_entry(cm, x));
                } else {
                    assert(e@ == configured_entry(cm, x));
                }
            }
            self.put(e);
            proof {
                assert(cs.take(i + 1) == cs.take(i as int).push(x));
                assert forall|y: Seq<char>| #[trigger] cs.take(i + 1).contains(y) <==> (cs.take(
                    i as int,
                ).contains(y) || y == x) by {
                    if cs.take(i + 1).contains(y) {
                        let k = choose|k: int| 0 <= k < i + 1 && #[trigger] cs.take(i + 1)[k] == y;
                        if k < i {
                            assert(cs.take(i as int)[k] == y);
                        }
                    }
                    if cs.take(i as int).contains(y) {
                        let k = choose|k: int| 0 <= k < i && #[trigger] cs.take(i as int)[k] == y;
                        assert(cs.take(i + 1)[k] == y);
                    }
                    if y == x {
                        assert(cs.take(i + 1)[i as int] == y);
                    }
                }
            }
            i += 1;
        }
        assert(cs.take(configured.len() as int) == cs);
    }

    /// The sessions in listing order: by experience index, then by id.
    #[verifier::rlimit(60)]
    pub fn listing(&self) -> (r: Vec<Session>)
        requires
            self.wf(),
        ensures
            r@.len() == self@.len(),
            sorted_by_listing(r@),
            forall|i: int|
                0 <= i < r@.len() ==> self.map().contains_key((#[trigger] r@[i])@.id) && r@[i]@
                    == self.map()[r@[i]@.id],
            forall|id: Seq<char>|
                #[trigger] self.map().contains_key(id) ==> exists|i: int|
                    0 <= i < r@.len() && (#[trigger] r@[i])@.id == id,
    {
        let mut r: Vec<Session> = Vec::new();
        let mut i: usize = 0;
        while i < self.sessions.len()
            invariant
                i <= self.sessions.len(),
                self.wf(),
                self@ == models(self.sessions@),
                r@.len() == i,
                sorted_by_listing(r@),
                drawn_from(r@, self@, i as int),
                draws_all(r@, self@, i as int),
            decreases self.sessions.len() - i,
        {
            let x = self.sessions[i].duplicate();
            assert(x@ == self@[i as int]);
            let ghost before = r@;
            proof {
                assert forall|a: int| 0 <= a < before.len() implies (#[trigger] before[a])@.id != x@.id by {
                    let k = choose|k: int| 0 <= k < i && before[a]@ == self@[k];
                    assert(self@[k].id != self@[i as int].id);
                }
            }
            let ghost xg = x;
            insert_by_listing(&mut r, x);
            proof {
                let p = choose|p: int| 0 <= p <= before.len() && r@ == before.insert(p, xg);
                lemma_insert_members(before, r@, p, xg, self@, i as int);
            }
            i += 1;
        }
        proof {
            assert forall|a: int| 0 <= a < r@.len() implies self.map().contains_key((#[trigger] r@[a])@.id) && r@[a]@ == self.map()[r@[a]@.id] by {
                let k = choose|k: int| 0 <= k < self@.len() && r@[a]@ == self@[k];
                assert(has_id(self@, self@[k].id));
                let c = choose|c: int| 0 <= c < self@.len() && self@[c].id == self@[k].id;
                assert(c == k);
            }
            assert forall|id: Seq<char>| #[trigger] self.map().contains_key(id) implies exists|a: int| 0 <= a < r@.len() && (#[trigger] r@[a])@.id == id by {
                let k = choose|k: int| 0 <= k < self@.len() && self@[k].id == id;
                let a = choose|a: int| 0 <= a < r@.len() && r@[a]@ == self@[k];
                assert(r@[a]@.id == id);
            }
        }
        r
    }
}

/// Each of `v` is one of the first `n` of `all`.
pub open spec fn drawn_from(v: Seq<Session>, all: Seq<SessionModel>, n: int) -> bool {
    forall|a: int| 0 <= a < v.len() ==> exists|k: int| 0 <= k < n && (#[trigger] v[a])@ == all[k]
}

/// Each of the first `n` of `all` is in `v`.
pub open spec fn draws_all(v: Seq<Session>, all: Seq<SessionModel>, n: int) -> bool {
    forall|k: int| #![trigger all[k]] 0 <= k < n ==> exists|a: int| 0 <= a < v.len() && (#[trigger] v[a])@ == all[k]
}

/// Sessions in listing order, each id once.
pub open spec fn sorted_by_listing(v: Seq<Session>) -> bool {
    forall|a: int, b: int|
        0 <= a < b < v.len() ==> listed_before((#[trigger] v[a])@.id, (#[trigger] v[b])@.id)
}

fn insert_by_listing(r: &mut Vec<Session>, x: Session)
    requires
        sorted_by_listing(old(r)@),
        forall|a: int| 0 <= a < old(r)@.len() ==> (#[trigger] old(r)@[a])@.id != x@.id,
    ensures
        sorted_by_listing(final(r)@),
        exists|p: int| 0 <= p <= old(r)@.len() && final(r)@ == old(r)@.insert(p, x),
{
    let mut p: usize = 0;
    while p < r.len() && !listed_before_exec(x.id.as_str(), r[p].id.as_str())
        invariant
            p <= r.len(),
            forall|a: int| 0 <= a < p ==> !listed_before(x@.id, (#[trigger] r@[a])@.id),
        decreases r.len() - p,
    {
        p += 1;
    }
    let ghost before = r@;
    proof {
        assert forall|a: int| 0 <= a < p implies listed_before((#[trigger] before[a])@.id, x@.id) by {
            lemma_listed_before_strict(before[a]@.id, x@.id, x@.id);
            lemma_listed_before_strict(x@.id, before[a]@.id, x@.id);
        }
        if p < before.len() {
            assert forall|a: int| p <= a < before.len() implies listed_before(x@.id, (#[trigger] before[a])@.id) by {
                if a > p {
                    lemma_listed_before_strict(x@.id, before[p as int]@.id, before[a]@.id);
                }
            }
        }
    }
    let ghost xs = x;
    r.insert(p, x);
    proof {
        assert(r@ == before.insert(p as int, xs));
        assert forall|a: int, b: int|
            0 <= a < b < r@.len() implies listed_before((#[trigger] r@[a])@.id, (#[trigger] r@[b])@.id) by {
            if b < p {
                assert(r@[a] == before[a] && r@[b] == before[b]);
            } else if b == p {
                assert(r@[a] == before[a]);
            } else if a < p {
                assert(r@[a] == before[a] && r@[b] == before[b - 1]);
                lemma_listed_before_strict(before[a]@.id, xs@.id, before[b - 1]@.id);
            } else if a == p {
                assert(r@[b] == before[b - 1]);
            } else {
                assert(r@[a] == before[a - 1] && r@[b] == before[b - 1]);
            }
        }
    }
}

proof fn lemma_insert_members(
    before: Seq<Session>,
    after: Seq<Session>,
    p: int,
    x: Session,
    all: Seq<SessionModel>,
    i: int,
)
    requires
        0 <= p <= before.len(),
        0 <= i < all.len(),
        after == before.insert(p, x),
        x@ == all[i],
        drawn_from(before, all, i),
        draws_all(before, all, i),
    ensures
        drawn_from(after, all, i + 1),
        draws_all(after, all, i + 1),
{
    assert forall|a: int| 0 <= a < after.len() implies exists|k: int| 0 <= k < i + 1 && (#[trigger] after[a])@ == all[k] by {
        if a < p {
            let k = choose|k: int| 0 <= k < i && before[a]@ == all[k];
            assert(after[a]@ == all[k]);
        } else if a == p {
            assert(after[a]@ == all[i]);
        } else {
            let k = choose|k: int| 0 <= k < i && before[a - 1]@ == all[k];
            assert(after[a]@ == all[k]);
        }
    }
    assert forall|k: int| #![trigger all[k]] 0 <= k < i + 1 implies exists|a: int| 0 <= a < after.len() && (#[trigger] after[a])@ == all[k] by {
        if k == i {
            assert(after[p]@ == all[k]);
        } else {
            let a = choose|a: int| 0 <= a < before.len() && before[a]@ == all[k];
            if a < p {
                assert(after[a]@ == all[k]);
            } else {
                assert(after[a + 1]@ == all[k]);
            }
        }
    }
}

// ---------------------------------------------------------------------------
// What a session's notebook is made from
// ---------------------------------------------------------------------------

/// The notebook settings the daemon was started with.
pub struct ExperienceDefaults {
    pub repo_url: String,
    pub ttl: String,
    pub disk_size: String,
    pub notebook_path: String,
    pub scan_file_path: String,
    pub gitcode_user: String,
}

/// What a session's notebook is made from.
pub struct NotebookSpec {
    pub session_id: String,
    pub experience_index: usize,
    pub repo_url: String,
    pub ttl: String,
    pub disk_size: String,
    pub notebook_path: String,
    pub scan_file_path: String,
    pub gitcode_user: String,
}

/// A `NotebookSpec` as plain values.
pub struct SpecModel {
    pub session_id: Seq<char>,
    pub experience_index: usize,
    pub repo_url: Seq<char>,
    pub ttl: Seq<char>,
    pub disk_size: Seq<char>,
    pub notebook_path: Seq<char>,
    pub scan_file_path: Seq<char>,
    pub gitcode_user: Seq<char>,
}

impl View for NotebookSpec {
    type V = SpecModel;

    open spec fn view(&self) -> SpecModel {
        SpecModel {
            session_id: self.session_id@,
            experience_index: self.experience_index,
            repo_url: self.repo_url@,
            ttl: self.ttl@,
            disk_size: self.disk_size@,
            notebook_path: self.notebook_path@,
            scan_file_path: self.scan_file_path@,
            gitcode_user: self.gitcode_user@,
        }
    }
}

/// The notebook of a session made with the daemon's own settings.
pub open spec fn defaults_spec(id: Seq<char>, index: usize, d: ExperienceDefaults) -> SpecModel {
    SpecModel {
        session_id: id,
        experience_index: index,
        repo_url: d.repo_url@,
        ttl: d.ttl@,
        disk_size: d.disk_size@,
        notebook_path: d.notebook_path@,
        scan_file_path: d.scan_file_path@,
        gitcode_user: d.gitcode_user@,
    }
}

pub fn default_session_spec(session_id: &str, experience_index: usize, defaults: &ExperienceDefaults) -> (r:
    NotebookSpec)
    ensures
        r@ == defaults_spec(session_id@, experience_index, *defaults),
{
    NotebookSpec {
        session_id: session_id.to_owned(),
        experience_index,
        repo_url: defaults.repo_url.clone(),
        ttl: defaults.ttl.clone(),
        disk_size: defaults.disk_size.clone(),
        notebook_path: defaults.notebook_path.clone(),
        scan_file_path: defaults.scan_file_path.clone(),
        gitcode_user: defaults.gitcode_user.clone(),
    }
}

/// `s` with the repository, lifetime, disk, path and scanned file of the
/// hub experience `e`.
pub open spec fn with_experience(s: SpecModel, e: ExperienceModel) -> SpecModel {
    SpecModel {
        session_id: s.session_id,
        experience_index: s.experience_index,
        repo_url: e.repo_url,
        ttl: e.ttl,
        disk_size: e.disk_size,
        notebook_path: e.notebook_path,
        scan_file_path: e.scan_file_path,
        gitcode_user: s.gitcode_user,
    }
}

/// The fields a good probe records of what its notebook is made from.
pub open spec fn spec_details(s: SpecModel) -> Seq<(Seq<char>, Seq<char>)> {
    seq![
        ("repo_url"@, s.repo_url),
        ("ttl"@, s.ttl),
        ("disk_size"@, s.disk_size),
        ("notebook_path"@, s.notebook_path),
        ("scan_file_path"@, s.scan_file_path),
    ]
}

fn spec_pairs(spec: &NotebookSpec) -> (r: Vec<(String, String)>)
    ensures
        pairs_view(r@) == spec_details(spec@),
{
    let mut r: Vec<(String, String)> = Vec::new();
    r.push(("repo_url".to_owned(), spec.repo_url.clone()));
    r.push(("ttl".to_owned(), spec.ttl.clone()));
    r.push(("disk_size".to_owned(), spec.disk_size.clone()));
    r.push(("notebook_path".to_owned(), spec.notebook_path.clone()));
    r.push(("scan_file_path".to_owned(), spec.scan_file_path.clone()));
    assert(pairs_view(r@) =~= spec_details(spec@));
    r
}

/// The value of the first recorded field named `key`.
pub open spec fn detail(det: Seq<(Seq<char>, Seq<char>)>, key: Seq<char>) -> Option<Seq<char>>
    decreases det.len(),
{
    if det.len() == 0 {
        None
    } else if det[0].0 == key {
        Some(det[0].1)
    } else {
        detail(det.drop_first(), key)
    }
}

fn find_detail(det: &Vec<(String, String)>, key: &str) -> (r: Option<String>)
    ensures
        opt_text(r) == detail(pairs_view(det@), key@),
{
    let ghost pv = pairs_view(det@);
    assert(pv.skip(0) =~= pv);
    let mut i: usize = 0;
    while i < det.len()
        invariant
            i <= det.len(),
            pv == pairs_view(det@),
            detail(pv, key@) == detail(pv.skip(i as int), key@),
        decreases det.len() - i,
    {
        assert(pv.skip(i as int)[0] == pv[i as int]);
        if str_eq(det[i].0.as_str(), key) {
            return Some(det[i].1.clone());
        }
        assert(pv.skip(i as int).drop_first() =~= pv.skip(i + 1));
        i += 1;
    }
    assert(pv.skip(i as int).len() == 0);
    None
}

pub open spec fn detail_or(det: Seq<(Seq<char>, Seq<char>)>, key: Seq<char>, d: Seq<char>) -> Seq<char> {
    match detail(det, key) {
        Some(v) => v,
        None => d,
    }
}

/// What the stored record of session `id` says its notebook is made from:
/// it needs the repository, the path and the scanned file; the lifetime
/// and disk size fall back to the daemon's settings, and the user is
/// always the daemon's.
pub open spec fn stored_spec(
    m: Map<Seq<char>, SessionModel>,
    id: Seq<char>,
    index: usize,
    d: ExperienceDefaults,
) -> Option<SpecModel> {
    let det = entry_or_empty(m, id).details;
    match (detail(det, "repo_url"@), detail(det, "notebook_path"@), detail(det, "scan_file_path"@)) {
        (Some(repo), Some(path), Some(scan)) => Some(
            SpecModel {
                session_id: id,
                experience_index: index,
                repo_url: repo,
                ttl: detail_or(det, "ttl"@, d.ttl@),
                disk_size: detail_or(det, "disk_size"@, d.disk_size@),
                notebook_path: path,
                scan_file_path: scan,
                gitcode_user: d.gitcode_user@,
            },
        ),
        _ => None,
    }
}

fn clone_experience(e: &HubExperience) -> (r: HubExperience)
    ensures
        r@ == e@,
{
    HubExperience {
        repo_url: e.repo_url.clone(),
        ttl: e.ttl.clone(),
        disk_size: e.disk_size.clone(),
        notebook_path: e.notebook_path.clone(),
        scan_file_path: e.scan_file_path.clone(),
    }
}

impl SessionTable {
    /// What the stored record of session `id` says its notebook is made
    /// from, where it says enough.
    pub fn session_spec_from_state(&self, id: &str, index: usize, defaults: &ExperienceDefaults) -> (r:
        Option<NotebookSpec>)
        requires
            self.wf(),
        ensures
            match stored_spec(self.map(), id@, index, *defaults) {
                Some(s) => r matches Some(x) && x@ == s,
                None => r is None,
            },
    {
        let e = self.entry(id);
        let repo = find_detail(&e.details, "repo_url");
        let path = find_detail(&e.details, "notebook_path");
        let scan = find_detail(&e.details, "scan_file_path");
        match (repo, path, scan) {
            (Some(repo), Some(path), Some(scan)) => {
                let ttl = match find_detail(&e.details, "ttl") {
                    Some(t) => t,
                    None => defaults.ttl.clone(),
                };
                let disk_size = match find_detail(&e.details, "disk_size") {
                    Some(t) => t,
                    None => defaults.disk_size.clone(),
                };
                Some(
                    NotebookSpec {
                        session_id: id.to_owned(),
                        experience_index: index,
                        repo_url: repo,
                        ttl,
                        disk_size,
                        notebook_path: path,
                        scan_file_path: scan,
                        gitcode_user: defaults.gitcode_user.clone(),
                    },
                )
            },
            _ => None,
        }
    }

    /// The lab URL and target URL stored for session `id` by its last good
    /// probe, to try its notebook again: only when the lab URL is on the
    /// notebook host; a missing target URL is empty.
    pub fn previous_lab_urls(&self, id: &str) -> (r: Option<(String, String)>)
        requires
            self.wf(),
        ensures
            ({
                let det = entry_or_empty(self.map(), id@).details;
                match detail(det, "href"@) {
                    Some(h) => if contains(h, NOTEBOOK_HOST@) {
                        r matches Some((a, b)) && a@ == h && b@ == detail_or(
                            det,
                            "target_url"@,
                            Seq::empty(),
                        )
                    } else {
                        r is None
                    },
                    None => r is None,
                }
            }),
    {
        let e = self.entry(id);
        match find_detail(&e.details, "href") {
            Some(h) => {
                if is_notebook_href(h.as_str()) {
                    let t = match find_detail(&e.details, "target_url") {
                        Some(t) => t,
                        None => String::new(),
                    };
                    Some((h, t))
                } else {
                    None
                }
            },
            None => None,
        }
    }

    /// What the notebook of session `session_id` is made from: the hub
    /// experience at its index where the hub lists one; else, for the
    /// daemon's own index, the daemon's settings; else what the session's
    /// stored record says, where it says enough; else an error that tells
    /// whether the hub lacked the index or could not be read.
    pub fn session_spec(
        &self,
        session_id: &str,
        default_index: usize,
        defaults: &ExperienceDefaults,
        experiences: &Result<Vec<HubExperience>, String>,
    ) -> (r: Result<NotebookSpec, SessionError>)
        requires
            self.wf(),
        ensures
            match session_index(session_id@) {
                None => r matches Err(SessionError::BadSessionId(e)) && e@ == session_id@,
                Some(n) => {
                    let base = defaults_spec(session_id@, n as usize, *defaults);
                    let stored = stored_spec(self.map(), session_id@, n as usize, *defaults);
                    match *experiences {
                        Ok(v) => if n < v@.len() {
                            r matches Ok(s) && s@ == with_experience(base, v@[n as int]@)
                        } else if n == default_index {
                            r matches Ok(s) && s@ == base
                        } else {
                            match stored {
                                Some(st) => r matches Ok(s) && s@ == st,
                                None => r matches Err(SessionError::ExperienceUnavailable(k)) && k
                                    == n,
                            }
                        },
                        Err(msg) => if n == default_index {
                            r matches Ok(s) && s@ == base
                        } else {
                            match stored {
                                Some(st) => r matches Ok(s) && s@ == st,
                                None => r matches Err(SessionError::ExperienceLookupFailed(k, e))
                                    && k == n && e@ == msg@,
                            }
                        },
                    }
                },
            },
    {
        let n = parse_session_id(session_id)?;
        let spec = default_session_spec(session_id, n, defaults);
        match experiences {
            Ok(v) => {
                if n < v.len() {
                    let e = clone_experience(&v[n]);
                    Ok(
                        NotebookSpec {
                            session_id: spec.session_id,
                            experience_index: spec.experience_index,
                            repo_url: e.repo_url,
                            ttl: e.ttl,
                            disk_size: e.disk_size,
                            notebook_path: e.notebook_path,
                            scan_file_path: e.scan_file_path,
                            gitcode_user: spec.gitcode_user,
                        },
                    )
                } else if n == default_index {
                    Ok(spec)
                } else {
                    match self.session_spec_from_state(session_id, n, defaults) {
                        Some(st) => Ok(st),
                        None => Err(SessionError::ExperienceUnavailable(n)),
                    }
                }
            },
            Err(msg) => {
                if n == default_index {
                    Ok(spec)
                } else {
                    match self.session_spec_from_state(session_id, n, defaults) {
                        Some(st) => Ok(st),
                        None => Err(SessionError::ExperienceLookupFailed(n, msg.clone())),
                    }
                }
            },
        }
    }
}

/// What a good probe records of a notebook is read back as what that
/// notebook is made from: after `record_session_ok` with `spec`, the stored
/// record of its session gives `spec` back, with the daemon's user.
pub proof fn lemma_recorded_spec_read_back(
    m: Map<Seq<char>, SessionModel>,
    recorded: SessionModel,
    spec: SpecModel,
    probe: Seq<(Seq<char>, Seq<char>)>,
    d: ExperienceDefaults,
)
    requires
        recorded.id == spec.session_id,
        recorded.details == spec_details(spec) + probe,
    ensures
        stored_spec(m.insert(spec.session_id, recorded), spec.session_id, spec.experience_index, d)
            == Some(
            SpecModel {
                session_id: spec.session_id,
                experience_index: spec.experience_index,
                repo_url: spec.repo_url,
                ttl: spec.ttl,
                disk_size: spec.disk_size,
                notebook_path: spec.notebook_path,
                scan_file_path: spec.scan_file_path,
                gitcode_user: d.gitcode_user@,
            },
        ),
{
    reveal_strlit("repo_url");
    reveal_strlit("ttl");
    reveal_strlit("disk_size");
    reveal_strlit("notebook_path");
    reveal_strlit("scan_file_path");
    let det = spec_details(spec) + probe;
    assert(entry_or_empty(m.insert(spec.session_id, recorded), spec.session_id) == recorded);
    let d1 = det.drop_first();
    let d2 = d1.drop_first();
    let d3 = d2.drop_first();
    let d4 = d3.drop_first();
    assert(det[0] == ("repo_url"@, spec.repo_url));
    assert(d1[0] == ("ttl"@, spec.ttl));
    assert(d2[0] == ("disk_size"@, spec.disk_size));
    assert(d3[0] == ("notebook_path"@, spec.notebook_path));
    assert(d4[0] == ("scan_file_path"@, spec.scan_file_path));
    assert("repo_url"@.len() == 8 && "ttl"@.len() == 3 && "disk_size"@.len() == 9);
    assert("notebook_path"@.len() == 13 && "scan_file_path"@.len() == 14);
    assert(detail(det, "repo_url"@) == Some(spec.repo_url));
    assert(detail(d1, "ttl"@) == Some(spec.ttl));
    assert(detail(det, "ttl"@) == Some(spec.ttl));
    assert(detail(d2, "disk_size"@) == Some(spec.disk_size));
    assert(detail(d1, "disk_size"@) == Some(spec.disk_size));
    assert(detail(det, "disk_size"@) == Some(spec.disk_size));
    assert(detail(d3, "notebook_path"@) == Some(spec.notebook_path));
    assert(detail(d2, "notebook_path"@) == Some(spec.notebook_path));
    assert(detail(d1, "notebook_path"@) == Some(spec.notebook_path));
    assert(detail(det, "notebook_path"@) == Some(spec.notebook_path));
    assert(detail(d4, "scan_file_path"@) == Some(spec.scan_file_path));
    assert(detail(d3, "scan_file_path"@) == Some(spec.scan_file_path));
    assert(detail(d2, "scan_file_path"@) == Some(spec.scan_file_path));
    assert(detail(d1, "scan_file_path"@) == Some(spec.scan_file_path));
    assert(detail(det, "scan_file_path"@) == Some(spec.scan_file_path));
}

} // verus!
