//! The daemon's job bookkeeping: the queue that lets ordered jobs run one at
//! a time in the order they arrived, and the table of submitted jobs.
//!
//! Times are microseconds since the Unix epoch.
use crate::config::str_eq;
use crate::text::{append_str, chars_of, string_of};
use crate::foreign::{opt_view, strings_view};
use vstd::prelude::*;

verus! {

// ---------------------------------------------------------------------------
// Ordered queue
// ---------------------------------------------------------------------------

/// Job ids waiting for their turn, and the one whose turn it is.
pub struct OrderedJobQueue {
    pub name: String,
    waiting: Vec<String>,
    running: Option<String>,
}

/// The state of an `OrderedJobQueue`, as plain values.
pub struct QueueView {
    pub name: Seq<char>,
    pub waiting: Seq<Seq<char>>,
    pub running: Option<Seq<char>>,
}

impl View for OrderedJobQueue {
    type V = QueueView;

    closed spec fn view(&self) -> QueueView {
        QueueView {
            name: self.name@,
            waiting: strings_view(self.waiting@),
            running: match self.running {
                Some(s) => Some(s@),
                None => None,
            },
        }
    }
}

/// `id` may start: nothing runs and `id` is first in line.
pub open spec fn may_start(q: QueueView, id: Seq<char>) -> bool {
    &&& q.running is None
    &&& q.waiting.len() > 0
    &&& q.waiting[0] == id
}

/// The queue after `id` joins the end of the line.
pub open spec fn entered(q: QueueView, id: Seq<char>) -> QueueView {
    QueueView { name: q.name, waiting: q.waiting.push(id), running: q.running }
}

/// The queue after the first in line starts.
pub open spec fn started(q: QueueView) -> QueueView {
    QueueView { name: q.name, waiting: q.waiting.drop_first(), running: Some(q.waiting[0]) }
}

/// The queue after `id` is done: the turn is free again if it was `id`'s.
pub open spec fn left(q: QueueView, id: Seq<char>) -> QueueView {
    if q.running == Some(id) {
        QueueView { name: q.name, waiting: q.waiting, running: None }
    } else {
        q
    }
}

/// What `OrderedJobQueue::status` reports.
pub struct QueueStatus {
    pub name: String,
    pub running: Option<String>,
    pub queued: usize,
    pub waiting: Vec<String>,
}

fn clone_strings(v: &Vec<String>) -> (r: Vec<String>)
    ensures
        r@ == v@,
{
    let mut r: Vec<String> = Vec::new();
    let mut i: usize = 0;
    while i < v.len()
        invariant
            i <= v.len(),
            r@ == v@.take(i as int),
        decreases v.len() - i,
    {
        r.push(v[i].clone());
        i += 1;
        assert(r@ == v@.take(i as int));
    }
    assert(v@.take(v.len() as int) == v@);
    r
}

impl OrderedJobQueue {
    /// An empty queue called `name`.
    pub fn new(name: &str) -> (r: Self)
        ensures
            r@ == (QueueView { name: name@, waiting: Seq::empty(), running: None }),
    {
        let r = OrderedJobQueue { name: name.to_owned(), waiting: Vec::new(), running: None };
        assert(r@.waiting =~= Seq::<Seq<char>>::empty());
        r
    }

    /// `id` joins the end of the line.
    pub fn enter(&mut self, id: String)
        ensures
            final(self)@ == entered(old(self)@, id@),
    {
        let ghost before = self.waiting@;
        self.waiting.push(id);
        assert(strings_view(self.waiting@) =~= strings_view(before).push(id@));
    }

    /// Whether `id` may start now.
    pub fn may_start(&self, id: &str) -> (r: bool)
        ensures
            r == may_start(self@, id@),
    {
        if self.running.is_some() || self.waiting.len() == 0 {
            false
        } else {
            str_eq(self.waiting[0].as_str(), id)
        }
    }

    /// Starts `id` if it may start now, and says whether it did. A waiting
    /// caller tries again each time the turn is given up.
    pub fn try_start(&mut self, id: &str) -> (r: bool)
        ensures
            r == may_start(old(self)@, id@),
            r ==> final(self)@ == started(old(self)@),
            !r ==> final(self)@ == old(self)@,
    {
        if !self.may_start(id) {
            return false;
        }
        let ghost before = self.waiting@;
        let first = self.waiting.remove(0);
        assert(strings_view(self.waiting@) =~= strings_view(before).drop_first());
        self.running = Some(first);
        true
    }

    /// `id` is done; the turn is given up only if it was `id`'s.
    pub fn leave(&mut self, id: &str)
        ensures
            final(self)@ == left(old(self)@, id@),
    {
        let owns = match &self.running {
            Some(r) => str_eq(r.as_str(), id),
            None => false,
        };
        if owns {
            self.running = None;
        }
    }

    /// The queue's name, the job that runs, and those that wait, in order.
    pub fn status(&self) -> (r: QueueStatus)
        ensures
            r.name@ == self@.name,
            (match r.running {
                Some(s) => Some(s@),
                None => None,
            }) == self@.running,
            r.queued == self@.waiting.len(),
            strings_view(r.waiting@) == self@.waiting,
    {
        QueueStatus {
            name: self.name.clone(),
            running: match &self.running {
                Some(s) => Some(s.clone()),
                None => None,
            },
            queued: self.waiting.len(),
            waiting: clone_strings(&self.waiting),
        }
    }
}

/// Only one job has the turn: once `a` has started, no id may start until
/// `a` is done.
pub proof fn lemma_one_at_a_time(q: QueueView, a: Seq<char>, b: Seq<char>)
    requires
        may_start(q, a),
    ensures
        !may_start(started(q), b),
        may_start(left(started(q), a), b) <==> (q.waiting.len() > 1 && q.waiting[1] == b),
{
}

/// First come, first served: an id that joined the line after another id
/// that still waits may not start, as long as it is in line only once.
pub proof fn lemma_first_come_first_served(q: QueueView, i: int, j: int)
    requires
        0 <= i < j < q.waiting.len(),
        q.waiting[i] != q.waiting[j],
        forall|k: int| 0 <= k < q.waiting.len() && k != j ==> q.waiting[k] != q.waiting[j],
    ensures
        !may_start(q, q.waiting[j]),
{
}

/// Joining the line changes neither whose turn it is nor who comes first.
pub proof fn lemma_enter_keeps_order(q: QueueView, id: Seq<char>, other: Seq<char>)
    requires
        q.waiting.len() > 0,
    ensures
        may_start(entered(q, id), other) == may_start(q, other),
        entered(q, id).waiting.subrange(0, q.waiting.len() as int) == q.waiting,
{
    assert(entered(q, id).waiting.subrange(0, q.waiting.len() as int) =~= q.waiting);
}

/// Only the job that has the turn can give it up.
pub proof fn lemma_leave_only_by_owner(q: QueueView, id: Seq<char>)
    requires
        q.running != Some(id),
    ensures
        left(q, id) == q,
{
}

/// One step a caller of the queue takes: join the line, try to start (which
/// starts only if it may), or be done.
pub enum QueueEvent {
    Enter(Seq<char>),
    Start(Seq<char>),
    Leave(Seq<char>),
}

/// The queue after one step, as `enter`, `try_start` and `leave` make it.
pub open spec fn step(q: QueueView, e: QueueEvent) -> QueueView {
    match e {
        QueueEvent::Enter(id) => entered(q, id),
        QueueEvent::Start(id) => if may_start(q, id) {
            started(q)
        } else {
            q
        },
        QueueEvent::Leave(id) => left(q, id),
    }
}

/// The queue after the steps `es`, taken in order, of any number of callers.
pub open spec fn run(q: QueueView, es: Seq<QueueEvent>) -> QueueView
    decreases es.len(),
{
    if es.len() == 0 {
        q
    } else {
        step(run(q, es.drop_last()), es.last())
    }
}

/// Some step of `es` started `id`.
pub open spec fn started_by(q: QueueView, es: Seq<QueueEvent>, id: Seq<char>) -> bool
    decreases es.len(),
{
    if es.len() == 0 {
        false
    } else {
        started_by(q, es.drop_last(), id) || (es.last() == QueueEvent::Start(id) && may_start(
            run(q, es.drop_last()),
            id,
        ))
    }
}

pub open spec fn fifo_inv(q: QueueView, es: Seq<QueueEvent>, a: Seq<char>, b: Seq<char>, ia: int) -> bool {
    let s = run(q, es);
    let sa = started_by(q, es, a);
    &&& forall|j: int|
        0 <= j < s.waiting.len() && s.waiting[j] == b ==> sa || exists|i: int|
            0 <= i < j && s.waiting[i] == a
    &&& (ia < es.len() && !sa ==> exists|i: int| 0 <= i < s.waiting.len() && s.waiting[i] == a)
    &&& (started_by(q, es, b) ==> sa)
}

proof fn lemma_fifo_inv(q: QueueView, es: Seq<QueueEvent>, a: Seq<char>, b: Seq<char>, ia: int)
    requires
        a != b,
        forall|j: int| 0 <= j < q.waiting.len() ==> q.waiting[j] != b,
        0 <= ia,
        ia < es.len() ==> es[ia] == QueueEvent::Enter(a),
        forall|m: int| 0 <= m < es.len() && es[m] == QueueEvent::Enter(b) ==> ia < m,
    ensures
        fifo_inv(q, es, a, b, ia),
    decreases es.len(),
{
    if es.len() > 0 {
        let prev = es.drop_last();
        let k = prev.len() as int;
        assert forall|m: int| 0 <= m < prev.len() && prev[m] == QueueEvent::Enter(b) implies ia < m by {
            assert(es[m] == prev[m]);
        }
        if ia < prev.len() {
            assert(prev[ia] == es[ia]);
        }
        lemma_fifo_inv(q, prev, a, b, ia);
        let s0 = run(q, prev);
        let s = run(q, es);
        let e = es.last();
        let sa0 = started_by(q, prev, a);
        let sa = started_by(q, es, a);
        assert(s == step(s0, e));
        assert(sa0 ==> sa);
        match e {
            QueueEvent::Enter(x) => {
                assert(s.waiting == s0.waiting.push(x));
                assert(sa == sa0);
                if x == b {
                    assert(es[k] == QueueEvent::Enter(b));
                    assert(ia < k);
                }
                assert forall|j: int|
                    0 <= j < s.waiting.len() && s.waiting[j] == b implies sa || exists|i: int|
                        0 <= i < j && s.waiting[i] == a by {
                    if j < s0.waiting.len() {
                        assert(s0.waiting[j] == b);
                        if !sa {
                            let i = choose|i: int| 0 <= i < j && s0.waiting[i] == a;
                            assert(s.waiting[i] == a);
                        }
                    } else {
                        assert(x == b);
                        if !sa {
                            let i = choose|i: int| 0 <= i < s0.waiting.len() && s0.waiting[i] == a;
                            assert(s.waiting[i] == a);
                        }
                    }
                }
                if ia < es.len() && !sa {
                    if ia < k {
                        let i = choose|i: int| 0 <= i < s0.waiting.len() && s0.waiting[i] == a;
                        assert(s.waiting[i] == a);
                    } else {
                        assert(ia == k);
                        assert(x == a);
                        assert(s.waiting[s0.waiting.len() as int] == a);
                    }
                }
            },
            QueueEvent::Start(x) => {
                if may_start(s0, x) {
                    assert(s.waiting == s0.waiting.drop_first());
                    assert(s0.waiting[0] == x);
                    assert(sa == (sa0 || x == a));
                    if x == b {
                        assert(s0.waiting[0] == b);
                        assert(sa0);
                    }
                    assert forall|j: int|
                        0 <= j < s.waiting.len() && s.waiting[j] == b implies sa || exists|i: int|
                            0 <= i < j && s.waiting[i] == a by {
                        assert(s0.waiting[j + 1] == b);
                        if !sa {
                            let i = choose|i: int| 0 <= i < j + 1 && s0.waiting[i] == a;
                            assert(i != 0);
                            assert(s.waiting[i - 1] == a);
                        }
                    }
                    if ia < es.len() && !sa {
                        if ia < k {
                            let i = choose|i: int| 0 <= i < s0.waiting.len() && s0.waiting[i] == a;
                            assert(i != 0);
                            assert(s.waiting[i - 1] == a);
                        } else {
                            assert(es[ia] == QueueEvent::Enter(a));
                        }
                    }
                } else {
                    assert(s == s0);
                    assert(sa == sa0);
                    if ia == k {
                        assert(es[ia] == QueueEvent::Enter(a));
                    }
                }
            },
            QueueEvent::Leave(x) => {
                assert(s.waiting == s0.waiting);
                assert(sa == sa0);
                if ia == k {
                    assert(es[ia] == QueueEvent::Enter(a));
                }
            },
        }
    }
}

/// Two callers in line are served in the order they joined, one at a time:
/// when `a` joined before `b` (and `b` was not already waiting), then
/// however the steps of any callers interleave, `b` is never started
/// unless `a` was started at an earlier step; a start happens only while
/// nothing runs, and leaves the started caller running.
pub proof fn lemma_two_callers_in_order(
    q: QueueView,
    es: Seq<QueueEvent>,
    a: Seq<char>,
    b: Seq<char>,
    ia: int,
)
    requires
        a != b,
        forall|j: int| 0 <= j < q.waiting.len() ==> q.waiting[j] != b,
        0 <= ia < es.len(),
        es[ia] == QueueEvent::Enter(a),
        forall|m: int| 0 <= m < es.len() && es[m] == QueueEvent::Enter(b) ==> ia < m,
    ensures
        forall|k: int|
            0 <= k <= es.len() ==> (#[trigger] started_by(q, es.take(k), b) ==> started_by(
                q,
                es.take(k),
                a,
            )),
        forall|k: int, x: Seq<char>|
            0 <= k < es.len() && es[k] == QueueEvent::Start(x) && #[trigger] may_start(
                run(q, es.take(k)),
                x,
            ) ==> run(q, es.take(k)).running is None && run(q, es.take(k + 1)).running == Some(x),
{
    assert forall|k: int| 0 <= k <= es.len() implies (#[trigger] started_by(q, es.take(k), b)
        ==> started_by(q, es.take(k), a)) by {
        let p = es.take(k);
        assert forall|m: int| 0 <= m < p.len() && p[m] == QueueEvent::Enter(b) implies ia < m by {
            assert(es[m] == p[m]);
        }
        if ia < p.len() {
            assert(p[ia] == es[ia]);
        }
        lemma_fifo_inv(q, p, a, b, ia);
    }
    assert forall|k: int, x: Seq<char>|
        0 <= k < es.len() && es[k] == QueueEvent::Start(x) && #[trigger] may_start(
            run(q, es.take(k)),
            x,
        ) implies run(q, es.take(k)).running is None && run(q, es.take(k + 1)).running == Some(x) by {
        assert(es.take(k + 1).drop_last() =~= es.take(k));
        assert(es.take(k + 1).last() == es[k]);
    }
}

// ---------------------------------------------------------------------------
// Job table
// ---------------------------------------------------------------------------

/// Where a job stands.
#[derive(PartialEq, Eq, Structural, Clone, Copy, Debug)]
pub enum JobStatus {
    Queued,
    Running,
    Succeeded,
    Failed,
}

impl JobStatus {
    /// The status as the daemon reports it.
    pub fn as_str(&self) -> (r: &'static str)
        ensures
            r@ == status_text(*self),
    {
        match self {
            JobStatus::Queued => "queued",
            JobStatus::Running => "running",
            JobStatus::Succeeded => "succeeded",
            JobStatus::Failed => "failed",
        }
    }
}

pub open spec fn status_text(s: JobStatus) -> Seq<char> {
    match s {
        JobStatus::Queued => "queued"@,
        JobStatus::Running => "running"@,
        JobStatus::Succeeded => "succeeded"@,
        JobStatus::Failed => "failed"@,
    }
}

/// One submitted job. `result` holds the JSON text of what a job that
/// succeeded returned; `error` the message of one that failed.
pub struct Job {
    pub id: String,
    pub name: String,
    pub queue: Option<String>,
    pub status: JobStatus,
    pub submitted: i64,
    pub started: Option<i64>,
    pub finished: Option<i64>,
    pub ok: Option<bool>,
    pub result: Option<String>,
    pub error: Option<String>,
}

fn clone_opt_string(o: &Option<String>) -> (r: Option<String>)
    ensures
        r == *o,
{
    match o {
        Some(s) => Some(s.clone()),
        None => None,
    }
}

impl Clone for Job {
    fn clone(&self) -> (r: Self)
        ensures
            r == *self,
    {
        Job {
            id: self.id.clone(),
            name: self.name.clone(),
            queue: clone_opt_string(&self.queue),
            status: self.status,
            submitted: self.submitted,
            started: self.started,
            finished: self.finished,
            ok: self.ok,
            result: clone_opt_string(&self.result),
            error: clone_opt_string(&self.error),
        }
    }
}

/// `j` is a job that was just submitted with this id, name and queue.
pub open spec fn is_new_job(
    j: Job,
    id: Seq<char>,
    name: Seq<char>,
    queue: Option<Seq<char>>,
    now: i64,
) -> bool {
    &&& j.id@ == id
    &&& j.name@ == name
    &&& opt_view(j.queue) == queue
    &&& j.status == JobStatus::Queued
    &&& j.submitted == now
    &&& j.started is None
    &&& j.finished is None
    &&& j.ok is None
    &&& j.result is None
    &&& j.error is None
}

/// `j` once it has begun to run.
pub open spec fn running_job(j: Job, now: i64) -> Job {
    Job { status: JobStatus::Running, started: Some(now), ..j }
}

/// `j` once it is over, with its result or its error.
pub open spec fn finished_job(j: Job, outcome: Result<String, String>, now: i64) -> Job {
    match outcome {
        Ok(result) => Job {
            status: JobStatus::Succeeded,
            ok: Some(true),
            result: Some(result),
            finished: Some(now),
            ..j
        },
        Err(error) => Job {
            status: JobStatus::Failed,
            ok: Some(false),
            error: Some(error),
            finished: Some(now),
            ..j
        },
    }
}

pub open spec fn has_id(v: Seq<Job>, id: Seq<char>) -> bool {
    exists|i: int| 0 <= i < v.len() && (#[trigger] v[i]).id@ == id
}

/// No two jobs share an id.
pub open spec fn unique_ids(v: Seq<Job>) -> bool {
    forall|i: int, j: int|
        0 <= i < v.len() && 0 <= j < v.len() && i != j ==> (#[trigger] v[i]).id@ != (
        #[trigger] v[j]).id@
}

/// The jobs of `v` by id.
pub open spec fn job_map(v: Seq<Job>) -> Map<Seq<char>, Job> {
    Map::new(
        |id: Seq<char>| has_id(v, id),
        |id: Seq<char>| v[choose|i: int| 0 <= i < v.len() && v[i].id@ == id],
    )
}

/// A job that has not finished is kept; a finished one is kept while no
/// more than `retention` has passed since it finished (one without a finish
/// time counts as finished now).
pub open spec fn kept(j: Job, now: i64, retention: u64) -> bool {
    ||| j.status == JobStatus::Queued
    ||| j.status == JobStatus::Running
    ||| now - (match j.finished {
        Some(f) => f,
        None => now,
    }) <= retention
}

/// The jobs of `v` that are kept, in order.
pub open spec fn pruned(v: Seq<Job>, now: i64, retention: u64) -> Seq<Job>
    decreases v.len(),
{
    if v.len() == 0 {
        Seq::empty()
    } else {
        let rest = pruned(v.drop_last(), now, retention);
        if kept(v.last(), now, retention) {
            rest.push(v.last())
        } else {
            rest
        }
    }
}

/// How many jobs of `v` have status `st`.
pub open spec fn count_status(v: Seq<Job>, st: JobStatus) -> nat
    decreases v.len(),
{
    if v.len() == 0 {
        0
    } else {
        count_status(v.drop_last(), st) + (if v.last().status == st {
            1nat
        } else {
            0nat
        })
    }
}

proof fn lemma_map_update(v: Seq<Job>, i: int, j: Job)
    requires
        unique_ids(v),
        0 <= i < v.len(),
        v[i].id@ == j.id@,
    ensures
        unique_ids(v.update(i, j)),
        job_map(v.update(i, j)) == job_map(v).insert(j.id@, j),
{
    let w = v.update(i, j);
    assert forall|a: int, b: int|
        0 <= a < w.len() && 0 <= b < w.len() && a != b implies (#[trigger] w[a]).id@ != (
        #[trigger] w[b]).id@ by {
        assert(w[a].id@ == v[a].id@);
        assert(w[b].id@ == v[b].id@);
    }
    assert forall|k| #[trigger] has_id(w, k) <==> has_id(v, k) by {
        if has_id(w, k) {
            let a = choose|a: int| 0 <= a < w.len() && w[a].id@ == k;
            assert(v[a].id@ == k);
        }
        if has_id(v, k) {
            let a = choose|a: int| 0 <= a < v.len() && v[a].id@ == k;
            assert(w[a].id@ == k);
        }
    }
    assert forall|k| #[trigger] has_id(w, k) implies job_map(w)[k] == job_map(v).insert(
        j.id@,
        j,
    )[k] by {
        let a = choose|a: int| 0 <= a < w.len() && w[a].id@ == k;
        let b = choose|b: int| 0 <= b < v.len() && v[b].id@ == k;
        assert(v[a].id@ == k);
        assert(a == b);
        if k == j.id@ {
            assert(a == i);
        }
    }
    assert(job_map(w) =~= job_map(v).insert(j.id@, j));
}

proof fn lemma_map_push(v: Seq<Job>, j: Job)
    requires
        unique_ids(v),
        !has_id(v, j.id@),
    ensures
        unique_ids(v.push(j)),
        job_map(v.push(j)) == job_map(v).insert(j.id@, j),
{
    let w = v.push(j);
    assert forall|a: int, b: int|
        0 <= a < w.len() && 0 <= b < w.len() && a != b implies (#[trigger] w[a]).id@ != (
        #[trigger] w[b]).id@ by {
        if a == v.len() {
            assert(v[b].id@ != j.id@);
        } else if b == v.len() {
            assert(v[a].id@ != j.id@);
        } else {
            assert(w[a] == v[a]);
            assert(w[b] == v[b]);
        }
    }
    assert forall|k| #[trigger] has_id(w, k) <==> (has_id(v, k) || k == j.id@) by {
        if has_id(w, k) {
            let a = choose|a: int| 0 <= a < w.len() && w[a].id@ == k;
            if a < v.len() {
                assert(v[a].id@ == k);
            }
        }
        if has_id(v, k) {
            let a = choose|a: int| 0 <= a < v.len() && v[a].id@ == k;
            assert(w[a].id@ == k);
        }
        if k == j.id@ {
            assert(w[v.len() as int].id@ == k);
        }
    }
    assert forall|k| #[trigger] has_id(w, k) implies job_map(w)[k] == job_map(v).insert(
        j.id@,
        j,
    )[k] by {
        let a = choose|a: int| 0 <= a < w.len() && w[a].id@ == k;
        if k == j.id@ {
            assert(a == v.len());
        } else {
            let b = choose|b: int| 0 <= b < v.len() && v[b].id@ == k;
            assert(w[b].id@ == k);
            assert(a == b);
        }
    }
    assert(job_map(w) =~= job_map(v).insert(j.id@, j));
}

/// The jobs that `pruned` keeps are exactly those of `v` that are kept.
pub proof fn lemma_pruned_members(v: Seq<Job>, now: i64, retention: u64)
    ensures
        forall|j: Job| #[trigger]
            pruned(v, now, retention).contains(j) <==> (v.contains(j) && kept(j, now, retention)),
        pruned(v, now, retention).len() <= v.len(),
    decreases v.len(),
{
    if v.len() > 0 {
        let init = v.drop_last();
        lemma_pruned_members(init, now, retention);
        let rest = pruned(init, now, retention);
        assert forall|j: Job| #[trigger]
            pruned(v, now, retention).contains(j) <==> (v.contains(j) && kept(
                j,
                now,
                retention,
            )) by {
            assert(v == init.push(v.last()));
            if v.contains(j) {
                let k = choose|k: int| 0 <= k < v.len() && v[k] == j;
                if k < init.len() {
                    assert(init[k] == j);
                    assert(init.contains(j));
                }
            }
            if init.contains(j) {
                let k = choose|k: int| 0 <= k < init.len() && init[k] == j;
                assert(v[k] == j);
            }
            if kept(v.last(), now, retention) {
                if rest.push(v.last()).contains(j) {
                    let k = choose|k: int| 0 <= k < rest.len() + 1 && rest.push(v.last())[k] == j;
                    if k < rest.len() {
                        assert(rest[k] == j);
                    }
                }
                if rest.contains(j) {
                    let k = choose|k: int| 0 <= k < rest.len() && rest[k] == j;
                    assert(rest.push(v.last())[k] == j);
                }
                assert(rest.push(v.last())[rest.len() as int] == v.last());
            }
            assert(v[v.len() - 1] == v.last());
        }
    }
}

/// Pruning keeps no job twice: ids stay unique.
proof fn lemma_pruned_unique(v: Seq<Job>, now: i64, retention: u64)
    requires
        unique_ids(v),
    ensures
        unique_ids(pruned(v, now, retention)),
        forall|id: Seq<char>| #[trigger] has_id(pruned(v, now, retention), id) ==> has_id(v, id),
    decreases v.len(),
{
    if v.len() > 0 {
        let init = v.drop_last();
        assert(unique_ids(init)) by {
            assert forall|a: int, b: int|
                0 <= a < init.len() && 0 <= b < init.len() && a != b implies (#[trigger] init[a]).id@
                != (#[trigger] init[b]).id@ by {
                assert(init[a] == v[a]);
                assert(init[b] == v[b]);
            }
        }
        lemma_pruned_unique(init, now, retention);
        let rest = pruned(init, now, retention);
        assert(!has_id(init, v.last().id@)) by {
            if has_id(init, v.last().id@) {
                let a = choose|a: int| 0 <= a < init.len() && init[a].id@ == v.last().id@;
                assert(v[a] == init[a]);
                assert(v[v.len() - 1] == v.last());
            }
        }
        if kept(v.last(), now, retention) {
            assert(!has_id(rest, v.last().id@));
            lemma_map_push(rest, v.last());
        }
        assert forall|id: Seq<char>| #[trigger] has_id(pruned(v, now, retention), id) implies has_id(
            v,
            id,
        ) by {
            let p = pruned(v, now, retention);
            let a = choose|a: int| 0 <= a < p.len() && p[a].id@ == id;
            if a < rest.len() {
                assert(p[a] == rest[a]);
                assert(has_id(rest, id));
                let b = choose|b: int| 0 <= b < init.len() && init[b].id@ == id;
                assert(v[b] == init[b]);
            } else {
                assert(v[v.len() - 1] == v.last());
            }
        }
    }
}

/// Every job that has not finished survives pruning.
pub proof fn lemma_prune_keeps_unfinished(v: Seq<Job>, now: i64, retention: u64, j: Job)
    requires
        v.contains(j),
        j.status == JobStatus::Queued || j.status == JobStatus::Running,
    ensures
        pruned(v, now, retention).contains(j),
{
    lemma_pruned_members(v, now, retention);
}

/// Each job has exactly one status: the counts add up to the number of jobs.
pub proof fn lemma_counts_add_up(v: Seq<Job>)
    ensures
        count_status(v, JobStatus::Queued) + count_status(v, JobStatus::Running) + count_status(
            v,
            JobStatus::Succeeded,
        ) + count_status(v, JobStatus::Failed) == v.len(),
    decreases v.len(),
{
    if v.len() > 0 {
        lemma_counts_add_up(v.drop_last());
    }
}

/// Why a job lookup failed.
pub enum JobError {
    /// No job with this id is known.
    UnknownJob(String),
}

impl JobError {
    /// The message the daemon reports.
    pub fn message(&self) -> (r: String)
        ensures
            match self {
                JobError::UnknownJob(id) => r@ == "unknown job id: "@ + id@,
            },
    {
        match self {
            JobError::UnknownJob(id) => {
                let mut v = chars_of("unknown job id: ");
                append_str(&mut v, id.as_str());
                string_of(&v)
            },
        }
    }
}

/// How many jobs stand at each status.
pub struct JobStats {
    pub queued: usize,
    pub running: usize,
    pub succeeded: usize,
    pub failed: usize,
}

/// The jobs the daemon knows, by id.
pub struct JobTable {
    jobs: Vec<Job>,
}

impl View for JobTable {
    type V = Seq<Job>;

    closed spec fn view(&self) -> Seq<Job> {
        self.jobs@
    }
}

impl JobTable {
    /// The table's invariant: no two jobs share an id.
    pub open spec fn wf(&self) -> bool {
        unique_ids(self@)
    }

    /// The jobs by id.
    pub open spec fn map(&self) -> Map<Seq<char>, Job> {
        job_map(self@)
    }

    /// An empty table.
    pub fn new() -> (r: Self)
        ensures
            r.wf(),
            r@ == Seq::<Job>::empty(),
            r.map() == Map::<Seq<char>, Job>::empty(),
    {
        let r = JobTable { jobs: Vec::new() };
        assert(r.map() =~= Map::<Seq<char>, Job>::empty());
        r
    }

    fn index_of(&self, id: &str) -> (r: Option<usize>)
        ensures
            r matches Some(i) ==> i < self@.len() && self@[i as int].id@ == id@,
            r is None ==> !has_id(self@, id@),
    {
        let mut i: usize = 0;
        while i < self.jobs.len()
            invariant
                i <= self.jobs.len(),
                forall|k: int| 0 <= k < i ==> (#[trigger] self.jobs@[k]).id@ != id@,
            decreases self.jobs.len() - i,
        {
            if str_eq(self.jobs[i].id.as_str(), id) {
                return Some(i);
            }
            i += 1;
        }
        None
    }

    /// The job with this id.
    pub fn get(&self, id: &str) -> (r: Result<Job, JobError>)
        requires
            self.wf(),
        ensures
            match r {
                Ok(j) => self.map().contains_key(id@) && j == self.map()[id@],
                Err(JobError::UnknownJob(e)) => !self.map().contains_key(id@) && e@ == id@,
            },
    {
        match self.index_of(id) {
            Some(i) => {
                proof {
                    let k = choose|k: int| 0 <= k < self@.len() && self@[k].id@ == id@;
                    assert(k == i);
                }
                Ok(self.jobs[i].clone())
            },
            None => Err(JobError::UnknownJob(id.to_owned())),
        }
    }

    /// Puts `j` in place of the job with its id, or adds it.
    fn put(&mut self, j: Job)
        requires
            old(self).wf(),
        ensures
            final(self).wf(),
            final(self).map() == old(self).map().insert(j.id@, j),
    {
        match self.index_of(j.id.as_str()) {
            Some(i) => {
                proof {
                    lemma_map_update(self.jobs@, i as int, j);
                }
                self.jobs.set(i, j);
            },
            None => {
                proof {
                    lemma_map_push(self.jobs@, j);
                }
                self.jobs.push(j);
            },
        }
    }

    /// Drops the finished jobs that are older than `retention`.
    pub fn prune(&mut self, now: i64, retention: u64)
        requires
            old(self).wf(),
        ensures
            final(self).wf(),
            final(self)@ == pruned(old(self)@, now, retention),
    {
        let ghost before = self.jobs@;
        let mut out: Vec<Job> = Vec::new();
        let mut i: usize = 0;
        while i < self.jobs.len()
            invariant
                i <= self.jobs.len(),
                self.jobs@ == before,
                out@ == pruned(before.take(i as int), now, retention),
            decreases self.jobs.len() - i,
        {
            let j = &self.jobs[i];
            let keep = match j.status {
                JobStatus::Queued | JobStatus::Running => true,
                _ => {
                    let finished: i64 = match j.finished {
                        Some(f) => f,
                        None => now,
                    };
                    (now as i128) - (finished as i128) <= (retention as i128)
                },
            };
            proof {
                assert(before.take(i + 1).drop_last() == before.take(i as int));
                assert(before.take(i + 1).last() == before[i as int]);
            }
            if keep {
                out.push(j.clone());
            }
            i += 1;
        }
        assert(before.take(before.len() as int) == before);
        proof {
            lemma_pruned_unique(before, now, retention);
        }
        self.jobs = out;
    }

    /// Prunes the table, then records a new queued job with this id and
    /// returns it.
    pub fn submit(
        &mut self,
        id: String,
        name: &str,
        queue: Option<&str>,
        now: i64,
        retention: u64,
    ) -> (r: Job)
        requires
            old(self).wf(),
        ensures
            final(self).wf(),
            is_new_job(
                r,
                id@,
                name@,
                match queue {
                    Some(q) => Some(q@),
                    None => None,
                },
                now,
            ),
            final(self).map() == job_map(pruned(old(self)@, now, retention)).insert(id@, r),
    {
        self.prune(now, retention);
        let j = Job {
            id,
            name: name.to_owned(),
            queue: match queue {
                Some(q) => Some(q.to_owned()),
                None => None,
            },
            status: JobStatus::Queued,
            submitted: now,
            started: None,
            finished: None,
            ok: None,
            result: None,
            error: None,
        };
        let r = j.clone();
        self.put(j);
        r
    }

    /// Marks the job with this id as running since `now`; a job that is no
    /// longer known is left alone.
    pub fn mark_running(&mut self, id: &str, now: i64)
        requires
            old(self).wf(),
        ensures
            final(self).wf(),
            old(self).map().contains_key(id@) ==> final(self).map() == old(self).map().insert(
                id@,
                running_job(old(self).map()[id@], now),
            ),
            !old(self).map().contains_key(id@) ==> final(self)@ == old(self)@,
    {
        match self.index_of(id) {
            Some(i) => {
                proof {
                    let k = choose|k: int| 0 <= k < self@.len() && self@[k].id@ == id@;
                    assert(k == i);
                }
                let mut j = self.jobs[i].clone();
                j.status = JobStatus::Running;
                j.started = Some(now);
                self.put(j);
            },
            None => {},
        }
    }

    /// Records how the job with this id ended; a job that is no longer
    /// known is left alone.
    pub fn finish(&mut self, id: &str, outcome: Result<String, String>, now: i64)
        requires
            old(self).wf(),
        ensures
            final(self).wf(),
            old(self).map().contains_key(id@) ==> final(self).map() == old(self).map().insert(
                id@,
                finished_job(old(self).map()[id@], outcome, now),
            ),
            !old(self).map().contains_key(id@) ==> final(self)@ == old(self)@,
    {
        match self.index_of(id) {
            Some(i) => {
                proof {
                    let k = choose|k: int| 0 <= k < self@.len() && self@[k].id@ == id@;
                    assert(k == i);
                }
                let mut j = self.jobs[i].clone();
                match outcome {
                    Ok(result) => {
                        j.status = JobStatus::Succeeded;
                        j.ok = Some(true);
                        j.result = Some(result);
                    },
                    Err(error) => {
                        j.status = JobStatus::Failed;
                        j.ok = Some(false);
                        j.error = Some(error);
                    },
                }
                j.finished = Some(now);
                self.put(j);
            },
            None => {},
        }
    }

    /// How many jobs stand at each status.
    pub fn stats(&self) -> (r: JobStats)
        ensures
            r.queued == count_status(self@, JobStatus::Queued),
            r.running == count_status(self@, JobStatus::Running),
            r.succeeded == count_status(self@, JobStatus::Succeeded),
            r.failed == count_status(self@, JobStatus::Failed),
    {
        let mut r = JobStats { queued: 0, running: 0, succeeded: 0, failed: 0 };
        let mut i: usize = 0;
        while i < self.jobs.len()
            invariant
                i <= self.jobs.len(),
                r.queued == count_status(self.jobs@.take(i as int), JobStatus::Queued),
                r.running == count_status(self.jobs@.take(i as int), JobStatus::Running),
                r.succeeded == count_status(self.jobs@.take(i as int), JobStatus::Succeeded),
                r.failed == count_status(self.jobs@.take(i as int), JobStatus::Failed),
            decreases self.jobs.len() - i,
        {
            proof {
                let t = self.jobs@.take(i + 1);
                assert(t.drop_last() == self.jobs@.take(i as int));
                assert(t.last() == self.jobs@[i as int]);
                lemma_counts_add_up(self.jobs@.take(i as int));
                assert(self.jobs@.take(i as int).len() == i);
            }
            match self.jobs[i].status {
                JobStatus::Queued => r.queued += 1,
                JobStatus::Running => r.running += 1,
                JobStatus::Succeeded => r.succeeded += 1,
                JobStatus::Failed => r.failed += 1,
            }
            i += 1;
        }
        assert(self.jobs@.take(self.jobs.len() as int) == self.jobs@);
        r
    }
}

/// A job that was submitted can be looked up by its id, and is queued.
pub proof fn lemma_submitted_job_is_found(before: Seq<Job>, after: Map<Seq<char>, Job>, r: Job, now: i64, retention: u64)
    requires
        after == job_map(pruned(before, now, retention)).insert(r.id@, r),
        r.status == JobStatus::Queued,
    ensures
        after.contains_key(r.id@),
        after[r.id@] == r,
        after[r.id@].status == JobStatus::Queued,
{
}

/// A finished job carries its finish time and its outcome, counts as
/// neither queued nor running, and with no retention is dropped as soon as
/// time has moved past its finish.
pub proof fn lemma_finished_keeps_outcome(j: Job, outcome: Result<String, String>, now: i64, later: i64)
    ensures
        finished_job(j, outcome, now).finished == Some(now),
        (outcome is Ok) <==> finished_job(j, outcome, now).ok == Some(true),
        finished_job(j, outcome, now).status != JobStatus::Queued,
        finished_job(j, outcome, now).status != JobStatus::Running,
        !kept(finished_job(j, outcome, now), later, 0) <==> later > now,
{
}

} // verus!
