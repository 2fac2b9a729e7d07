//! Offline (cloud) download tasks: the worker's periodic refresh of the task
//! lists by phase, how many pages of each it keeps, and how the interface
//! merges the refreshed and the further pages it receives.

use vstd::prelude::*;

use crate::json::Json;
use crate::text::{chars_of, dec, push_dec, push_str, str_eq, string_from_chars, trim, trim_chars};
use crate::types::{first_i64, first_str, opt_view, task_file_id, task_id, task_name, task_size};
use crate::transfer::is_active_phase;

verus! {

/// Tasks asked for per page.
pub const TASK_PAGE_SIZE: usize = 100;

/// Interval of the task refresh while some task is pending or running (ms).
pub const TASKS_POLL_ACTIVE_MS: u64 = 3000;

/// Interval of the task refresh while nothing moves by itself (ms).
pub const TASKS_POLL_IDLE_MS: u64 = 60000;

/// Interval of the quota refresh (ms).
pub const QUOTA_POLL_MS: u64 = 60000;

/// Whether an interval of `every` ms has passed since `last` at `now`
/// (a clock that went back counts as no time passed).
pub open spec fn elapsed(now: u64, last: u64, every: u64) -> bool {
    (if now >= last {
        now - last
    } else {
        0
    }) >= every
}

/// Which refreshes are due at `now`: the quota, and the task lists (at the
/// active interval while tasks move by themselves, else the idle one).
pub fn polls_due(now: u64, last_quota: u64, last_tasks: u64, tasks_active: bool) -> (r: (bool, bool))
    ensures
        r.0 == elapsed(now, last_quota, QUOTA_POLL_MS),
        r.1 == elapsed(now, last_tasks, if tasks_active { TASKS_POLL_ACTIVE_MS } else { TASKS_POLL_IDLE_MS }),
{
    let every = if tasks_active {
        TASKS_POLL_ACTIVE_MS
    } else {
        TASKS_POLL_IDLE_MS
    };
    let q = (if now >= last_quota {
        now - last_quota
    } else {
        0
    }) >= QUOTA_POLL_MS;
    let t = (if now >= last_tasks {
        now - last_tasks
    } else {
        0
    }) >= every;
    (q, t)
}

// ---------------------------------------------------------------------------
// Lists keyed by phase name

/// Whether no phase has two entries.
pub open spec fn kdistinct<V>(es: Seq<(String, V)>) -> bool {
    forall|i: int, j: int| 0 <= i < j < es.len() ==> es[i].0@ != es[j].0@
}

/// Index of phase `k`'s entry, if it has one.
pub open spec fn kslot<V>(es: Seq<(String, V)>, k: Seq<char>) -> Option<int> {
    if exists|i: int| 0 <= i < es.len() && es[i].0@ == k {
        Some(choose|i: int| 0 <= i < es.len() && es[i].0@ == k)
    } else {
        None
    }
}

/// Phase `k`'s value, if it has one.
pub open spec fn kget<V>(es: Seq<(String, V)>, k: Seq<char>) -> Option<V> {
    match kslot(es, k) {
        Some(i) => Some(es[i].1),
        None => None,
    }
}

/// The list with phase `k` set to `v` (replaced in place, or added last).
pub open spec fn kput<V>(es: Seq<(String, V)>, k: String, v: V) -> Seq<(String, V)> {
    match kslot(es, k@) {
        Some(i) => es.update(i, (es[i].0, v)),
        None => es.push((k, v)),
    }
}

/// The list without phase `k`.
pub open spec fn kdel<V>(es: Seq<(String, V)>, k: Seq<char>) -> Seq<(String, V)> {
    match kslot(es, k) {
        Some(i) => es.remove(i),
        None => es,
    }
}

/// Finds phase `k`'s entry.
pub fn kfind<V>(es: &Vec<(String, V)>, k: &str) -> (r: Option<usize>)
    requires
        kdistinct(es@),
    ensures
        match r {
            Some(i) => kslot(es@, k@) == Some(i as int) && i < es@.len(),
            None => kslot(es@, k@) is None,
        },
{
    let mut i: usize = 0;
    while i < es.len()
        invariant
            0 <= i <= es@.len(),
            kdistinct(es@),
            forall|j: int| 0 <= j < i ==> (#[trigger] es@[j]).0@ != k@,
        decreases es@.len() - i,
    {
        if str_eq(es[i].0.as_str(), k) {
            proof {
                let c = choose|j: int| 0 <= j < es@.len() && es@[j].0@ == k@;
                assert(0 <= c < es@.len() && es@[c].0@ == k@);
                if c != i {
                    if c < i {
                        assert(es@[c].0@ != k@);
                    } else {
                        assert(es@[i as int].0@ != es@[c].0@);
                    }
                }
            }
            return Some(i);
        }
        i += 1;
    }
    None
}

/// Sets phase `k` to `v`.
pub fn kset<V>(es: &mut Vec<(String, V)>, k: String, v: V)
    requires
        kdistinct(old(es)@),
    ensures
        kdistinct(final(es)@),
        final(es)@ == kput(old(es)@, k, v),
{
    match kfind(es, k.as_str()) {
        Some(i) => {
            let (name, _) = es.remove(i);
            es.insert(i, (name, v));
            proof {
                let o = old(es)@;
                assert(es@ == o.update(i as int, (o[i as int].0, v)));
                assert forall|a: int, b: int| 0 <= a < b < es@.len() implies es@[a].0@ != es@[b].0@ by {
                    assert(es@[a].0 == o[a].0);
                    assert(es@[b].0 == o[b].0);
                }
            }
        },
        None => {
            proof {
                let o = old(es)@;
                assert forall|a: int| 0 <= a < o.len() implies (#[trigger] o[a]).0@ != k@ by {
                    if o[a].0@ == k@ {
                        assert(exists|j: int| 0 <= j < o.len() && o[j].0@ == k@);
                    }
                }
            }
            es.push((k, v));
        },
    }
}

/// Removes phase `k`'s entry.
pub fn kremove<V>(es: &mut Vec<(String, V)>, k: &str)
    requires
        kdistinct(old(es)@),
    ensures
        kdistinct(final(es)@),
        final(es)@ == kdel(old(es)@, k@),
{
    if let Some(i) = kfind(es, k) {
        es.remove(i);
        proof {
            let o = old(es)@;
            assert forall|a: int, b: int| 0 <= a < b < es@.len() implies es@[a].0@ != es@[b].0@ by {
                let oa = if a < i { a } else { a + 1 };
                let ob = if b < i { b } else { b + 1 };
                assert(es@[a] == o[oa]);
                assert(es@[b] == o[ob]);
            }
        }
    }
}

// ---------------------------------------------------------------------------
// The worker's side

/// What one refresh fetched of one phase: its tasks, page after page, the
/// token after the last page, how many pages came, and whether every
/// request succeeded.
#[derive(Debug)]
pub struct PhaseFetch {
    pub tasks: Vec<Json>,
    pub next: Option<String>,
    pub fetched: usize,
    pub ok: bool,
}

impl PhaseFetch {
    /// Nothing fetched yet.
    pub fn new() -> (f: PhaseFetch)
        ensures
            f.tasks@.len() == 0,
            f.next is None,
            f.fetched == 0,
            f.ok,
    {
        PhaseFetch { tasks: Vec::new(), next: None, fetched: 0, ok: true }
    }

    /// Whether another page is to be asked for, with `want` pages wanted:
    /// none failed, fewer than `want` came, and the last one had a successor.
    pub fn wants_more(&self, want: usize) -> (b: bool)
        ensures
            b == (self.ok && self.fetched < want && (self.fetched == 0 || self.next is Some)),
    {
        self.ok && self.fetched < want && (self.fetched == 0 || self.next.is_some())
    }

    /// A page arrived: its tasks follow the earlier ones and its token is kept.
    pub fn add_page(&mut self, tasks: Vec<Json>, next: Option<String>)
        requires
            old(self).fetched < usize::MAX,
        ensures
            final(self).tasks@ == old(self).tasks@ + tasks@,
            final(self).next == next,
            final(self).fetched == old(self).fetched + 1,
            final(self).ok == old(self).ok,
    {
        let mut tasks = tasks;
        self.tasks.append(&mut tasks);
        self.next = next;
        self.fetched = self.fetched + 1;
    }

    /// A request failed; the phase keeps what it had before this refresh.
    pub fn fail(&mut self)
        ensures
            !final(self).ok,
            final(self).tasks@ == old(self).tasks@,
            final(self).next == old(self).next,
            final(self).fetched == old(self).fetched,
    {
        self.ok = false;
    }
}

/// What a refresh hands the interface: the tasks of each phase that was
/// fetched, and each such phase's next-page token.
#[derive(Debug)]
pub struct TasksRound {
    pub buckets: Vec<(String, Vec<Json>)>,
    pub nexts: Vec<(String, Option<String>)>,
    /// Whether a pending or running phase came back with tasks.
    pub active: bool,
    /// Whether a pending or running phase could not be fetched.
    pub unknown: bool,
}

impl TasksRound {
    /// A refresh with nothing settled yet.
    pub fn new() -> (r: TasksRound)
        ensures
            r.buckets@.len() == 0,
            r.nexts@.len() == 0,
            !r.active,
            !r.unknown,
    {
        TasksRound { buckets: Vec::new(), nexts: Vec::new(), active: false, unknown: false }
    }
}

/// How many pages of each phase the worker keeps, and whether some task
/// still moves by itself.
#[derive(Debug)]
pub struct TaskPaging {
    /// Pages loaded per phase (the user may have loaded more than one).
    pub pages: Vec<(String, usize)>,
    /// Next-page token per phase.
    pub next: Vec<(String, Option<String>)>,
    pub active: bool,
}

/// The page count a refresh asks for when `stored` pages were loaded.
pub open spec fn wanted(stored: Option<usize>) -> usize {
    match stored {
        Some(n) => if n >= 1 { n } else { 1 },
        None => 1,
    }
}

impl TaskPaging {
    /// Nothing loaded, nothing moving.
    pub fn new() -> (p: TaskPaging)
        ensures
            p.pages@.len() == 0,
            p.next@.len() == 0,
            !p.active,
            p.wf(),
    {
        TaskPaging { pages: Vec::new(), next: Vec::new(), active: false }
    }

    /// No phase has two entries in either list.
    pub open spec fn wf(&self) -> bool {
        kdistinct(self.pages@) && kdistinct(self.next@)
    }

    /// How many pages of `phase` a refresh fetches: as many as were loaded,
    /// at least one.
    pub fn pages_wanted(&self, phase: &str) -> (n: usize)
        requires
            self.wf(),
        ensures
            n == wanted(kget(self.pages@, phase@)),
            n >= 1,
    {
        match kfind(&self.pages, phase) {
            Some(i) => {
                let n = self.pages[i].1;
                if n >= 1 {
                    n
                } else {
                    1
                }
            },
            None => 1,
        }
    }

    /// Settles one phase of a refresh. A phase whose fetch failed keeps its
    /// paging and sends nothing (a pending or running one leaves the activity
    /// unknown). Otherwise its tasks and token go to the interface; an empty
    /// phase forgets its paging, a non-empty one records the pages fetched
    /// (at least one) and the token.
    pub fn settle_phase(&mut self, round: &mut TasksRound, phase: String, fetch: PhaseFetch)
        requires
            old(self).wf(),
        ensures
            final(self).wf(),
            final(self).active == old(self).active,
            !fetch.ok ==> {
                &&& final(self).pages@ == old(self).pages@
                &&& final(self).next@ == old(self).next@
                &&& final(round).buckets@ == old(round).buckets@
                &&& final(round).nexts@ == old(round).nexts@
                &&& final(round).active == old(round).active
                &&& final(round).unknown == (old(round).unknown || is_active_phase_spec(phase@))
            },
            fetch.ok && fetch.tasks@.len() == 0 ==> {
                &&& final(self).pages@ == kdel(old(self).pages@, phase@)
                &&& final(self).next@ == kdel(old(self).next@, phase@)
            },
            fetch.ok && fetch.tasks@.len() > 0 ==> {
                &&& final(self).pages@ == kput(old(self).pages@, phase, if fetch.fetched >= 1 { fetch.fetched } else { 1 })
                &&& final(self).next@ == kput(old(self).next@, phase, fetch.next)
            },
            fetch.ok ==> {
                &&& final(round).buckets@ == old(round).buckets@.push((phase, fetch.tasks))
                &&& final(round).nexts@ == old(round).nexts@.push((phase, fetch.next))
                &&& final(round).active == (old(round).active || (is_active_phase_spec(phase@)
                    && fetch.tasks@.len() > 0))
                &&& final(round).unknown == old(round).unknown
            },
    {
        let moving = is_active_phase(phase.as_str());
        if !fetch.ok {
            if moving {
                round.unknown = true;
            }
            return;
        }
        if moving && fetch.tasks.len() > 0 {
            round.active = true;
        }
        if fetch.tasks.len() == 0 {
            kremove(&mut self.pages, phase.as_str());
            kremove(&mut self.next, phase.as_str());
        } else {
            let n = if fetch.fetched >= 1 {
                fetch.fetched
            } else {
                1
            };
            kset(&mut self.pages, phase.clone(), n);
            kset(&mut self.next, phase.clone(), fetch.next.clone());
        }
        round.nexts.push((phase.clone(), fetch.next));
        round.buckets.push((phase, fetch.tasks));
    }

    /// Ends a refresh: tasks move by themselves if a pending or running
    /// phase had tasks, or if one could not be fetched and they moved before.
    pub fn finish(&mut self, round: &TasksRound)
        ensures
            final(self).active == (round.active || (round.unknown && old(self).active)),
            final(self).pages@ == old(self).pages@,
            final(self).next@ == old(self).next@,
    {
        self.active = round.active || (round.unknown && self.active);
    }

    /// The token of `phase`'s next page, when it has one.
    pub fn more_token(&self, phase: &str) -> (t: Option<String>)
        requires
            self.wf(),
        ensures
            t == match kget(self.next@, phase@) {
                Some(o) => o,
                None => None,
            },
    {
        match kfind(&self.next, phase) {
            Some(i) => self.next[i].1.clone(),
            None => None,
        }
    }

    /// One more page of `phase` came, with `next` after it.
    pub fn page_loaded(&mut self, phase: String, next: Option<String>)
        requires
            old(self).wf(),
            match kget(old(self).pages@, phase@) {
                Some(n) => n < usize::MAX,
                None => true,
            },
        ensures
            final(self).wf(),
            final(self).pages@ == kput(old(self).pages@, phase, match kget(old(self).pages@, phase@) {
                Some(n) => (n + 1) as usize,
                None => 2usize,
            }),
            final(self).next@ == kput(old(self).next@, phase, next),
            final(self).active == old(self).active,
    {
        let n = match kfind(&self.pages, phase.as_str()) {
            Some(i) => self.pages[i].1 + 1,
            None => 2,
        };
        kset(&mut self.pages, phase.clone(), n);
        kset(&mut self.next, phase, next);
    }
}

/// Whether an offline-task phase still changes by itself.
pub open spec fn is_active_phase_spec(phase: Seq<char>) -> bool {
    phase == "PHASE_TYPE_PENDING"@ || phase == "PHASE_TYPE_RUNNING"@
}

// ---------------------------------------------------------------------------
// The interface's side

/// The task lists the interface shows, by phase, with their paging.
#[derive(Debug)]
pub struct TaskBuckets {
    pub buckets: Vec<(String, Vec<Json>)>,
    pub next: Vec<(String, Option<String>)>,
    /// Phases whose next page is on its way.
    pub loading_more: Vec<String>,
    pub loading: bool,
    pub refreshing: bool,
}

/// The buckets after a refresh brought `bs`, phase by phase: a phase that
/// came back empty leaves, another replaces its list.
pub open spec fn buckets_after(
    es: Seq<(String, Vec<Json>)>,
    bs: Seq<(String, Vec<Json>)>,
) -> Seq<(String, Vec<Json>)>
    decreases bs.len(),
{
    if bs.len() == 0 {
        es
    } else {
        let prev = buckets_after(es, bs.drop_last());
        let b = bs.last();
        if b.1@.len() == 0 {
            kdel(prev, b.0@)
        } else {
            kput(prev, b.0, b.1)
        }
    }
}

/// The tokens after a refresh brought `bs` with tokens `nexts`: each phase
/// that came back takes its token, when `nexts` has one for it.
pub open spec fn nexts_after(
    es: Seq<(String, Option<String>)>,
    bs: Seq<(String, Vec<Json>)>,
    nexts: Seq<(String, Option<String>)>,
) -> Seq<(String, Option<String>)>
    decreases bs.len(),
{
    if bs.len() == 0 {
        es
    } else {
        let prev = nexts_after(es, bs.drop_last(), nexts);
        let b = bs.last();
        match kget(nexts, b.0@) {
            Some(t) => kput(prev, b.0, t),
            None => prev,
        }
    }
}

/// The ids of a list of tasks (`None` for a task without one).
pub open spec fn task_ids(ts: Seq<Json>) -> Seq<Option<Seq<char>>> {
    ts.map_values(|t: Json| first_str(t, seq!["id"@]))
}

/// Whether a task of a further page repeats one of the `known` ids.
pub open spec fn repeats(known: Seq<Option<Seq<char>>>, t: Json) -> bool {
    match first_str(t, seq!["id"@]) {
        Some(id) => known.contains(Some(id)),
        None => false,
    }
}

/// The tasks of a further page that are added to a list whose tasks had `known` ids.
pub open spec fn more_kept(known: Seq<Option<Seq<char>>>, page: Seq<Json>) -> Seq<Json> {
    page.filter(|t: Json| !repeats(known, t))
}

/// Whether `phase` is among `ps`.
pub open spec fn phase_in(ps: Seq<String>, phase: Seq<char>) -> bool {
    exists|i: int| 0 <= i < ps.len() && ps[i]@ == phase
}

impl TaskBuckets {
    /// Nothing shown yet.
    pub fn new() -> (b: TaskBuckets)
        ensures
            b.buckets@.len() == 0,
            b.next@.len() == 0,
            b.loading_more@.len() == 0,
            !b.loading,
            !b.refreshing,
            b.wf(),
    {
        TaskBuckets { buckets: Vec::new(), next: Vec::new(), loading_more: Vec::new(), loading: false, refreshing: false }
    }

    /// No phase has two entries in either list.
    pub open spec fn wf(&self) -> bool {
        kdistinct(self.buckets@) && kdistinct(self.next@)
    }

    /// A refresh came back: its phases are merged in (a phase that failed
    /// to refresh is not among them and keeps its old list), and the
    /// loading marks are cleared.
    pub fn merge_all(&mut self, buckets: Vec<(String, Vec<Json>)>, nexts: Vec<(String, Option<String>)>)
        requires
            old(self).wf(),
            kdistinct(nexts@),
        ensures
            final(self).wf(),
            final(self).buckets@ == buckets_after(old(self).buckets@, buckets@),
            final(self).next@ == nexts_after(old(self).next@, buckets@, nexts@),
            !final(self).loading,
            !final(self).refreshing,
            final(self).loading_more@ == old(self).loading_more@,
    {
        let ghost bs = buckets@;
        let mut rest = buckets;
        let total = rest.len();
        let mut k: usize = 0;
        while rest.len() > 0
            invariant
                self.wf(),
                kdistinct(nexts@),
                total == bs.len(),
                0 <= k <= bs.len(),
                rest@ == bs.subrange(k as int, bs.len() as int),
                self.buckets@ == buckets_after(old(self).buckets@, bs.take(k as int)),
                self.next@ == nexts_after(old(self).next@, bs.take(k as int), nexts@),
                self.loading_more@ == old(self).loading_more@,
            decreases rest@.len(),
        {
            let (phase, tasks) = rest.remove(0);
            proof {
                assert(k < bs.len());
                assert((phase, tasks) == bs[k as int]);
                assert(bs.take(k + 1).drop_last() == bs.take(k as int));
                assert(bs.take(k + 1).last() == bs[k as int]);
            }
            match kfind(&nexts, phase.as_str()) {
                Some(j) => {
                    let t = nexts[j].1.clone();
                    kset(&mut self.next, phase.clone(), t);
                },
                None => {},
            }
            if tasks.len() == 0 {
                kremove(&mut self.buckets, phase.as_str());
            } else {
                kset(&mut self.buckets, phase, tasks);
            }
            k = k + 1;
            proof {
                assert(rest@ == bs.subrange(k as int, bs.len() as int));
            }
        }
        proof {
            assert(bs.take(k as int) == bs);
        }
        self.loading = false;
        self.refreshing = false;
    }

    /// A further page of `phase` came: the phase is no longer loading more;
    /// its tasks join the phase's list except those repeating an id the list
    /// already had (a phase not shown yet is added last); the token is kept.
    pub fn merge_more(&mut self, phase: String, tasks: Vec<Json>, next: Option<String>)
        requires
            old(self).wf(),
        ensures
            final(self).wf(),
            final(self).loading_more@ == old(self).loading_more@.filter(|p: String| p@ != phase@),
            final(self).next@ == kput(old(self).next@, phase, next),
            match kslot(old(self).buckets@, phase@) {
                Some(i) => {
                    &&& final(self).buckets@.len() == old(self).buckets@.len()
                    &&& final(self).buckets@[i].0 == old(self).buckets@[i].0
                    &&& final(self).buckets@[i].1@ == old(self).buckets@[i].1@ + more_kept(
                        task_ids(old(self).buckets@[i].1@),
                        tasks@,
                    )
                    &&& forall|j: int| 0 <= j < old(self).buckets@.len() && j != i ==> final(self).buckets@[j]
                        == old(self).buckets@[j]
                },
                None => {
                    &&& final(self).buckets@.len() == old(self).buckets@.len() + 1
                    &&& final(self).buckets@.take(old(self).buckets@.len() as int) == old(self).buckets@
                    &&& final(self).buckets@.last().0 == phase
                    &&& final(self).buckets@.last().1@ == tasks@
                },
            },
            final(self).loading == old(self).loading,
            final(self).refreshing == old(self).refreshing,
    {
        drop_phase(&mut self.loading_more, phase.as_str());
        kset(&mut self.next, phase.clone(), next);
        let ghost b0 = self.buckets@;
        match kfind(&self.buckets, phase.as_str()) {
            Some(i) => {
                let (name, mut list) = self.buckets.remove(i);
                let ghost old_list = list@;
                let known = ids_of_tasks(&list);
                let ghost pred = |t: Json| !repeats(task_ids(old_list), t);
                let ghost p0 = tasks@;
                let mut rest = tasks;
                let total = rest.len();
                let mut k: usize = 0;
                while rest.len() > 0
                    invariant
                        total == p0.len(),
                        0 <= k <= p0.len(),
                        rest@ == p0.subrange(k as int, p0.len() as int),
                        list@ == old_list + p0.take(k as int).filter(pred),
                        known@.map_values(|o: Option<String>| opt_view(o)) == task_ids(old_list),
                        pred == (|t: Json| !repeats(task_ids(old_list), t)),
                    decreases rest@.len(),
                {
                    let t = rest.remove(0);
                    proof {
                        assert(k < p0.len());
                        assert(t == p0[k as int]);
                        assert(p0.take(k + 1) == p0.take(k as int).push(t));
                        p0.take(k as int).lemma_filter_push(t, pred);
                    }
                    let id = task_id(&t);
                    let dup = match &id {
                        Some(x) => known_has(&known, x.as_str()),
                        None => false,
                    };
                    proof {
                        assert(dup == repeats(task_ids(old_list), t));
                    }
                    if !dup {
                        list.push(t);
                    }
                    k = k + 1;
                    proof {
                        assert(rest@ == p0.subrange(k as int, p0.len() as int));
                    }
                }
                proof {
                    assert(p0.take(k as int) == p0);
                }
                self.buckets.insert(i, (name, list));
                proof {
                    assert forall|a: int, b: int| 0 <= a < b < self.buckets@.len() implies self.buckets@[a].0@
                        != self.buckets@[b].0@ by {
                        assert(self.buckets@[a].0 == b0[a].0);
                        assert(self.buckets@[b].0 == b0[b].0);
                    }
                    assert forall|j: int| 0 <= j < b0.len() && j != i implies self.buckets@[j] == b0[j] by {}
                }
            },
            None => {
                proof {
                    assert forall|a: int| 0 <= a < b0.len() implies (#[trigger] b0[a]).0@ != phase@ by {
                        if b0[a].0@ == phase@ {
                            assert(exists|j: int| 0 <= j < b0.len() && b0[j].0@ == phase@);
                        }
                    }
                }
                self.buckets.push((phase, tasks));
                proof {
                    assert(self.buckets@.take(b0.len() as int) == b0);
                }
            },
        }
    }

    /// Asks for `phase`'s next page: not while one is on its way, nor when
    /// the phase has no next page. Returns whether the request is to be sent.
    pub fn load_more(&mut self, phase: &str) -> (go: bool)
        requires
            old(self).wf(),
        ensures
            go == (!phase_in(old(self).loading_more@, phase@) && (kget(old(self).next@, phase@) matches Some(
                t,
            ) && t is Some)),
            go ==> final(self).loading_more@.len() == old(self).loading_more@.len() + 1
                && final(self).loading_more@.drop_last() == old(self).loading_more@
                && final(self).loading_more@.last()@ == phase@,
            !go ==> final(self).loading_more@ == old(self).loading_more@,
            final(self).buckets@ == old(self).buckets@,
            final(self).next@ == old(self).next@,
    {
        let mut i: usize = 0;
        while i < self.loading_more.len()
            invariant
                0 <= i <= self.loading_more@.len(),
                forall|j: int| 0 <= j < i ==> (#[trigger] self.loading_more@[j])@ != phase@,
            decreases self.loading_more@.len() - i,
        {
            if str_eq(self.loading_more[i].as_str(), phase) {
                return false;
            }
            i += 1;
        }
        let has_next = match kfind(&self.next, phase) {
            Some(j) => self.next[j].1.is_some(),
            None => false,
        };
        if !has_next {
            return false;
        }
        self.loading_more.push(phase.to_string());
        true
    }
}

/// The ids of a list of tasks.
fn ids_of_tasks(ts: &Vec<Json>) -> (r: Vec<Option<String>>)
    ensures
        r@.map_values(|o: Option<String>| opt_view(o)) == task_ids(ts@),
{
    let mut r: Vec<Option<String>> = Vec::new();
    let mut i: usize = 0;
    while i < ts.len()
        invariant
            0 <= i <= ts@.len(),
            r@.len() == i,
            r@.map_values(|o: Option<String>| opt_view(o)) == task_ids(ts@.take(i as int)),
        decreases ts@.len() - i,
    {
        let ghost before = r@;
        let id = task_id(&ts[i]);
        r.push(id);
        i += 1;
        proof {
            let a = r@.map_values(|o: Option<String>| opt_view(o));
            let b = task_ids(ts@.take(i as int));
            assert forall|j: int| 0 <= j < i implies a[j] == b[j] by {
                if j < i - 1 {
                    assert(r@[j] == before[j]);
                    assert(before.map_values(|o: Option<String>| opt_view(o))[j] == task_ids(ts@.take(i - 1))[j]);
                    assert(ts@.take(i as int)[j] == ts@.take(i - 1)[j]);
                }
            }
            assert(a =~= b);
        }
    }
    proof {
        assert(ts@.take(i as int) == ts@);
    }
    r
}

/// Whether `id` is among the known ids.
fn known_has(known: &Vec<Option<String>>, id: &str) -> (b: bool)
    ensures
        b == known@.map_values(|o: Option<String>| opt_view(o)).contains(Some(id@)),
{
    let ghost kv = known@.map_values(|o: Option<String>| opt_view(o));
    let mut i: usize = 0;
    while i < known.len()
        invariant
            0 <= i <= known@.len(),
            kv == known@.map_values(|o: Option<String>| opt_view(o)),
            forall|j: int| 0 <= j < i ==> kv[j] != Some(id@),
        decreases known@.len() - i,
    {
        let hit = match &known[i] {
            Some(x) => str_eq(x.as_str(), id),
            None => false,
        };
        if hit {
            proof {
                assert(kv[i as int] == Some(id@));
            }
            return true;
        }
        i += 1;
    }
    proof {
        if kv.contains(Some(id@)) {
            let j = choose|j: int| 0 <= j < kv.len() && kv[j] == Some(id@);
            assert(kv[j] != Some(id@));
        }
    }
    false
}

/// Takes `phase` out of a list of phases.
fn drop_phase(ps: &mut Vec<String>, phase: &str)
    ensures
        final(ps)@ == old(ps)@.filter(|p: String| p@ != phase@),
{
    let ghost p0 = ps@;
    let ghost pred = |p: String| p@ != phase@;
    let mut rest: Vec<String> = Vec::new();
    std::mem::swap(&mut rest, ps);
    let total = rest.len();
    let mut k: usize = 0;
    while rest.len() > 0
        invariant
            total == p0.len(),
            0 <= k <= p0.len(),
            rest@ == p0.subrange(k as int, p0.len() as int),
            ps@ == p0.take(k as int).filter(pred),
            pred == (|p: String| p@ != phase@),
        decreases rest@.len(),
    {
        let x = rest.remove(0);
        proof {
            assert(k < p0.len());
            assert(x == p0[k as int]);
            assert(p0.take(k + 1) == p0.take(k as int).push(x));
            p0.take(k as int).lemma_filter_push(x, pred);
        }
        if !str_eq(x.as_str(), phase) {
            ps.push(x);
        }
        k = k + 1;
        proof {
            assert(rest@ == p0.subrange(k as int, p0.len() as int));
        }
    }
    proof {
        assert(p0.take(k as int) == p0);
    }
}

/// Setting a phase keeps the phases distinct, and leaves any other phase
/// `q`'s value as it was.
pub proof fn lemma_kput_other<V>(es: Seq<(String, V)>, k: String, v: V, q: Seq<char>)
    requires
        kdistinct(es),
    ensures
        kdistinct(kput(es, k, v)),
        k@ != q ==> kget(kput(es, k, v), q) == kget(es, q),
{
    let r = kput(es, k, v);
    match kslot(es, k@) {
        Some(i) => {
            assert forall|a: int, b: int| 0 <= a < b < r.len() implies r[a].0@ != r[b].0@ by {
                assert(r[a].0 == es[a].0);
                assert(r[b].0 == es[b].0);
            }
        },
        None => {
            assert forall|a: int| 0 <= a < es.len() implies (#[trigger] es[a]).0@ != k@ by {
                if es[a].0@ == k@ {
                    assert(exists|j: int| 0 <= j < es.len() && es[j].0@ == k@);
                }
            }
        },
    }
    if k@ != q {
        lemma_kslot_same_names(es, r, q);
    }
}

/// Removing a phase keeps the phases distinct, and leaves any other phase
/// `q`'s value as it was.
pub proof fn lemma_kdel_other<V>(es: Seq<(String, V)>, k: Seq<char>, q: Seq<char>)
    requires
        kdistinct(es),
    ensures
        kdistinct(kdel(es, k)),
        k != q ==> kget(kdel(es, k), q) == kget(es, q),
{
    let r = kdel(es, k);
    match kslot(es, k) {
        Some(i) => {
            assert forall|a: int, b: int| 0 <= a < b < r.len() implies r[a].0@ != r[b].0@ by {
                let oa = if a < i { a } else { a + 1 };
                let ob = if b < i { b } else { b + 1 };
                assert(r[a] == es[oa]);
                assert(r[b] == es[ob]);
            }
            if k == q {
            } else {
            match kslot(es, q) {
                Some(j) => {
                    assert(es[j].0@ == q);
                    assert(j != i);
                    let jj = if j < i { j } else { j - 1 };
                    assert(r[jj] == es[j]);
                    assert(exists|x: int| 0 <= x < r.len() && r[x].0@ == q);
                    let c = choose|x: int| 0 <= x < r.len() && r[x].0@ == q;
                    if c != jj {
                        if c < jj {
                            assert(r[c].0@ != r[jj].0@);
                        } else {
                            assert(r[jj].0@ != r[c].0@);
                        }
                    }
                },
                None => {
                    if exists|x: int| 0 <= x < r.len() && r[x].0@ == q {
                        let c = choose|x: int| 0 <= x < r.len() && r[x].0@ == q;
                        let oc = if c < i { c } else { c + 1 };
                        assert(r[c] == es[oc]);
                        assert(exists|x: int| 0 <= x < es.len() && es[x].0@ == q);
                    }
                },
            }
            }
        },
        None => {},
    }
}

/// Two lists that agree on where `q` sits and on the entries with that
/// name give `q` the same value.
proof fn lemma_kslot_same_names<V>(es: Seq<(String, V)>, r: Seq<(String, V)>, q: Seq<char>)
    requires
        kdistinct(es),
        kdistinct(r),
        es.len() <= r.len(),
        forall|a: int| 0 <= a < es.len() && es[a].0@ == q ==> r[a] == es[a],
        forall|a: int| 0 <= a < es.len() ==> (r[a].0@ == q <==> es[a].0@ == q),
        forall|a: int| es.len() <= a < r.len() ==> r[a].0@ != q,
    ensures
        kget(r, q) == kget(es, q),
{
    match kslot(es, q) {
        Some(j) => {
            assert(r[j].0@ == q);
            assert(exists|x: int| 0 <= x < r.len() && r[x].0@ == q);
            let c = choose|x: int| 0 <= x < r.len() && r[x].0@ == q;
            if c != j {
                if c < j {
                    assert(r[c].0@ != r[j].0@);
                } else {
                    assert(r[j].0@ != r[c].0@);
                }
            }
        },
        None => {
            if exists|x: int| 0 <= x < r.len() && r[x].0@ == q {
                let c = choose|x: int| 0 <= x < r.len() && r[x].0@ == q;
                assert(c < es.len());
                assert(exists|x: int| 0 <= x < es.len() && es[x].0@ == q);
            }
        },
    }
}

/// A refresh keeps the buckets distinct by phase.
pub proof fn lemma_buckets_after_distinct(es: Seq<(String, Vec<Json>)>, bs: Seq<(String, Vec<Json>)>)
    requires
        kdistinct(es),
    ensures
        kdistinct(buckets_after(es, bs)),
    decreases bs.len(),
{
    if bs.len() > 0 {
        lemma_buckets_after_distinct(es, bs.drop_last());
        let prev = buckets_after(es, bs.drop_last());
        let b = bs.last();
        if b.1@.len() == 0 {
            lemma_kdel_other(prev, b.0@, b.0@);
        } else {
            lemma_kput_other(prev, b.0, b.1, b.0@);
        }
    }
}

/// A phase that a refresh did not bring back (its fetch failed) keeps the
/// list it had: merging a refresh never drops the old data of such a phase.
pub proof fn lemma_unrefreshed_phase_kept(
    es: Seq<(String, Vec<Json>)>,
    bs: Seq<(String, Vec<Json>)>,
    phase: Seq<char>,
)
    requires
        kdistinct(es),
        forall|i: int| 0 <= i < bs.len() ==> (#[trigger] bs[i]).0@ != phase,
    ensures
        kget(buckets_after(es, bs), phase) == kget(es, phase),
    decreases bs.len(),
{
    if bs.len() > 0 {
        let rest = bs.drop_last();
        assert forall|i: int| 0 <= i < rest.len() implies (#[trigger] rest[i]).0@ != phase by {
            assert(rest[i] == bs[i]);
        }
        lemma_unrefreshed_phase_kept(es, rest, phase);
        lemma_buckets_after_distinct(es, rest);
        let prev = buckets_after(es, rest);
        let b = bs.last();
        assert(b == bs[bs.len() - 1]);
        if b.1@.len() == 0 {
            lemma_kdel_other(prev, b.0@, phase);
        } else {
            lemma_kput_other(prev, b.0, b.1, phase);
        }
    }
}

// ---------------------------------------------------------------------------
// The task page

/// One task as the task page lists it, and what can be done with it.
#[derive(Debug, Clone, PartialEq, Eq)]
pub struct TaskRow {
    pub name: String,
    pub id: String,
    /// Shown only when positive.
    pub size: i64,
    pub file_id: String,
    /// A finished task's file can be downloaded.
    pub can_download: bool,
    /// A task with an id can be deleted.
    pub can_delete: bool,
    /// A failed task can be retried.
    pub can_retry: bool,
}

/// A string member of a task, or `fallback` when it has none.
pub open spec fn or_text(v: Option<Seq<char>>, fallback: Seq<char>) -> Seq<char> {
    match v {
        Some(s) => s,
        None => fallback,
    }
}

/// The row of task `t` listed under `phase`.
pub fn task_row(phase: &str, t: &Json) -> (r: TaskRow)
    ensures
        r.name@ == or_text(first_str(*t, seq!["name"@, "file_name"@]), "未知任务"@),
        r.id@ == or_text(first_str(*t, seq!["id"@]), Seq::empty()),
        r.file_id@ == or_text(first_str(*t, seq!["file_id"@]), Seq::empty()),
        r.size == match first_i64(*t, seq!["file_size"@, "size"@]) {
            Some(n) => n,
            None => 0,
        },
        r.can_download == (r.file_id@.len() > 0 && phase@ == "PHASE_TYPE_COMPLETE"@),
        r.can_delete == (r.id@.len() > 0),
        r.can_retry == (phase@ == "PHASE_TYPE_ERROR"@ && r.id@.len() > 0),
{
    let name = match task_name(t) {
        Some(n) => n,
        None => "未知任务".to_owned(),
    };
    let id = match task_id(t) {
        Some(s) => s,
        None => String::new(),
    };
    let file_id = match task_file_id(t) {
        Some(s) => s,
        None => String::new(),
    };
    let size = match task_size(t) {
        Some(n) => n,
        None => 0,
    };
    let can_download = !file_id.as_str().is_empty() && str_eq(phase, "PHASE_TYPE_COMPLETE");
    let can_delete = !id.as_str().is_empty();
    let can_retry = str_eq(phase, "PHASE_TYPE_ERROR") && !id.as_str().is_empty();
    TaskRow { name, id, size, file_id, can_download, can_delete, can_retry }
}

/// The ids of a list of tasks, skipping those without one.
pub open spec fn present_ids(ts: Seq<Json>) -> Seq<Seq<char>>
    decreases ts.len(),
{
    if ts.len() == 0 {
        Seq::empty()
    } else {
        let rest = present_ids(ts.drop_last());
        match first_str(ts.last(), seq!["id"@]) {
            Some(id) => rest.push(id),
            None => rest,
        }
    }
}

/// What "clear this group" removes (task records only): the ids of the
/// group's tasks; running tasks cannot be cleared, and a group without ids
/// offers nothing.
pub fn group_clear_ids(phase: &str, tasks: &[Json]) -> (r: Option<Vec<String>>)
    ensures
        (phase@ == "PHASE_TYPE_RUNNING"@ || present_ids(tasks@).len() == 0) <==> r is None,
        r matches Some(ids) ==> ids@.map_values(|s: String| s@) == present_ids(tasks@),
{
    if str_eq(phase, "PHASE_TYPE_RUNNING") {
        return None;
    }
    let mut ids: Vec<String> = Vec::new();
    let mut i: usize = 0;
    while i < tasks.len()
        invariant
            0 <= i <= tasks@.len(),
            ids@.map_values(|s: String| s@) == present_ids(tasks@.take(i as int)),
        decreases tasks@.len() - i,
    {
        let ghost i0 = ids@;
        proof {
            assert(tasks@.take(i + 1).drop_last() == tasks@.take(i as int));
            assert(tasks@.take(i + 1).last() == tasks@[i as int]);
        }
        match task_id(&tasks[i]) {
            Some(id) => {
                ids.push(id);
                proof {
                    assert(ids@.map_values(|s: String| s@) =~= i0.map_values(|s: String| s@).push(
                        ids@.last()@,
                    ));
                }
            },
            None => {},
        }
        i += 1;
    }
    proof {
        assert(tasks@.take(i as int) == tasks@);
    }
    if ids.len() == 0 {
        return None;
    }
    Some(ids)
}

/// A phase group's header ("label (count)") and whether it starts unfolded
/// (every group but the finished one).
pub fn group_header(phase: &str, count: usize) -> (r: (String, bool))
    ensures
        r.0@ == crate::format::phase_text(phase@) + " ("@ + dec(count as nat) + ")"@,
        r.1 == (phase@ != "PHASE_TYPE_COMPLETE"@),
{
    let mut out: Vec<char> = Vec::new();
    push_str(&mut out, crate::format::phase_label(phase));
    push_str(&mut out, " (");
    push_dec(&mut out, count as u64);
    push_str(&mut out, ")");
    (string_from_chars(&out), !str_eq(phase, "PHASE_TYPE_COMPLETE"))
}

/// A new offline download: the trimmed link, the trimmed name (none when
/// blank: the server names it), and the chosen drive folder.
pub struct OfflineAsk {
    pub url: String,
    pub name: Option<String>,
    pub parent: Option<String>,
}

/// The request the "submit" button sends.
pub fn offline_request(url: &str, name: &str, dest: &Option<(String, String)>) -> (r: OfflineAsk)
    ensures
        r.url@ == trim(url@),
        trim(name@).len() == 0 ==> r.name is None,
        trim(name@).len() > 0 ==> (r.name matches Some(n) && n@ == trim(name@)),
        opt_view(r.parent) == match *dest {
            Some(d) => Some(d.0@),
            None => None,
        },
{
    let u = string_from_chars(&trim_chars(&chars_of(url)));
    let n = trim_chars(&chars_of(name));
    let name = if n.len() == 0 {
        None
    } else {
        Some(string_from_chars(&n))
    };
    let parent = match dest {
        Some(d) => Some(d.0.clone()),
        None => None,
    };
    OfflineAsk { url: u, name, parent }
}

/// Where offline downloads go, as the page says it.
pub fn offline_dest_label(dest: &Option<(String, String)>) -> (r: String)
    ensures
        r@ == match *dest {
            Some(d) => "网盘目录 · "@ + d.1@,
            None => "离线默认目录"@,
        },
{
    match dest {
        Some(d) => {
            let mut out: Vec<char> = Vec::new();
            push_str(&mut out, "网盘目录 · ");
            push_str(&mut out, d.1.as_str());
            string_from_chars(&out)
        },
        None => "离线默认目录".to_owned(),
    }
}

} // verus!
