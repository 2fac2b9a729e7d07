//! The folder-listing cache of the file browser.
//!
//! Each folder (`None` is the drive's root) keeps the last listing that came
//! back for it, with the request id it answered. An answer older than the one
//! already kept is dropped, so listings that arrive out of order never
//! overwrite newer ones. First-page requests still on their way are kept too,
//! so that a folder is never asked for twice at once.

use vstd::prelude::*;

use crate::text::str_eq;
use crate::types::{opt_view, File};

verus! {

/// How long (milliseconds) a cached listing is shown without asking again.
pub const DIR_TTL_MS: u64 = 60_000;
/// How many folders the cache keeps; the least recently used leave first, but
/// never the folder being shown.
pub const DIR_CACHE_CAP: usize = 64;

/// The cached listing of one folder.
#[derive(Debug, Clone)]
pub struct DirEntry {
    pub files: Vec<File>,
    pub next_token: Option<String>,
    /// When the listing arrived (milliseconds of a monotonic clock).
    pub fetched_at: u64,
    /// When the folder was last opened or refreshed.
    pub last_used: u64,
    /// Id of the request the listing answers.
    pub req: u64,
}

/// Listings by folder, and the first-page requests on their way by folder.
#[derive(Debug, Clone)]
pub struct DirCache {
    pub entries: Vec<(Option<String>, DirEntry)>,
    pub inflight: Vec<(Option<String>, u64)>,
}

/// What opening a folder does.
#[derive(Debug, Clone, Copy, PartialEq, Eq)]
pub enum DirOpen {
    /// Show the cached listing; when `revalidate`, also ask for a fresh one
    /// in the background.
    Cached { revalidate: bool },
    /// A request is on its way: show the loading state and wait for it.
    Waiting,
    /// Nothing cached: clear the view and ask.
    Fetch,
}

/// The folder a slot belongs to.
pub open spec fn key_of<V>(e: (Option<String>, V)) -> Option<Seq<char>> {
    opt_view(e.0)
}

/// No folder has two slots.
pub open spec fn distinct_keys<V>(es: Seq<(Option<String>, V)>) -> bool {
    forall|i: int, j: int| 0 <= i < j < es.len() ==> key_of(es[i]) != key_of(es[j])
}

/// Index of folder `k`'s slot, if it has one.
pub open spec fn slot<V>(es: Seq<(Option<String>, V)>, k: Option<Seq<char>>) -> Option<int> {
    if exists|i: int| 0 <= i < es.len() && key_of(es[i]) == k {
        Some(choose|i: int| 0 <= i < es.len() && key_of(es[i]) == k)
    } else {
        None
    }
}

/// Whether two optional strings are equal.
pub fn opt_str_eq(a: &Option<String>, b: &Option<String>) -> (r: bool)
    ensures
        r == (opt_view(*a) == opt_view(*b)),
{
    match (a, b) {
        (Some(x), Some(y)) => str_eq(x.as_str(), y.as_str()),
        (None, None) => true,
        _ => false,
    }
}

/// Finds folder `k`'s slot.
pub fn find_slot<V>(es: &Vec<(Option<String>, V)>, k: &Option<String>) -> (r: Option<usize>)
    requires
        distinct_keys(es@),
    ensures
        match r {
            Some(i) => slot(es@, opt_view(*k)) == Some(i as int),
            None => slot(es@, opt_view(*k)) is None,
        },
{
    let mut i: usize = 0;
    while i < es.len()
        invariant
            0 <= i <= es@.len(),
            distinct_keys(es@),
            forall|j: int| 0 <= j < i ==> key_of(#[trigger] es@[j]) != opt_view(*k),
        decreases es@.len() - i,
    {
        if opt_str_eq(&es[i].0, k) {
            proof {
                let c = choose|j: int| 0 <= j < es@.len() && key_of(es@[j]) == opt_view(*k);
                assert(0 <= c < es@.len() && key_of(es@[c]) == opt_view(*k));
                if c != i {
                    if c < i {
                        assert(key_of(es@[c]) != opt_view(*k));
                    } else {
                        assert(key_of(es@[i as int]) != key_of(es@[c]));
                    }
                }
            }
            return Some(i);
        }
        i += 1;
    }
    None
}

/// Ids of a list of files.
pub open spec fn ids_of(fs: Seq<File>) -> Seq<Seq<char>> {
    fs.map_values(|f: File| f.id@)
}

/// The files of a later page that were not on the earlier pages.
pub open spec fn new_on_page(base: Seq<File>, page: Seq<File>) -> Seq<File> {
    page.filter(|f: File| !ids_of(base).contains(f.id@))
}

/// A folder's files after an answer: a first page replaces them; a later page
/// adds the files not already there, in order.
pub open spec fn merged(base: Seq<File>, page: Seq<File>, append: bool) -> Seq<File> {
    if append {
        base + new_on_page(base, page)
    } else {
        page
    }
}

/// The entry kept for an answer to request `req` at `now`.
pub open spec fn answered(
    e: DirEntry,
    base: Seq<File>,
    page: Seq<File>,
    append: bool,
    next: Option<String>,
    req: u64,
    now: u64,
) -> bool {
    &&& e.files@ == merged(base, page, append)
    &&& opt_view(e.next_token) == opt_view(next)
    &&& e.req == req
    &&& e.fetched_at == now
    &&& e.last_used == now
}

/// Whether an answer to request `req` for folder `k` is older than the kept one.
pub open spec fn is_stale(es: Seq<(Option<String>, DirEntry)>, k: Option<Seq<char>>, req: u64) -> bool {
    match slot(es, k) {
        Some(i) => req < es[i].1.req,
        None => false,
    }
}

/// The in-flight list after an answer: the first-page request it answers is done.
pub open spec fn settled(
    fl: Seq<(Option<String>, u64)>,
    k: Option<Seq<char>>,
    req: u64,
    append: bool,
) -> Seq<(Option<String>, u64)> {
    match slot(fl, k) {
        Some(i) => if !append && fl[i].1 == req {
            fl.remove(i)
        } else {
            fl
        },
        None => fl,
    }
}

/// Whether entry `a` was used before entry `b` (ties go by position).
pub open spec fn used_before(es: Seq<(Option<String>, DirEntry)>, a: int, b: int) -> bool {
    es[a].1.last_used < es[b].1.last_used || (es[a].1.last_used == es[b].1.last_used && a < b)
}

/// How many entries among the first `n`, other than folder `cur`'s, were used
/// before entry `i`.
pub open spec fn older_count(
    es: Seq<(Option<String>, DirEntry)>,
    cur: Option<Seq<char>>,
    i: int,
    n: int,
) -> nat
    decreases n,
{
    if n <= 0 {
        0
    } else {
        older_count(es, cur, i, n - 1) + if key_of(es[n - 1]) != cur && used_before(es, n - 1, i) {
            1nat
        } else {
            0nat
        }
    }
}

/// Whether entry `i` leaves when the cache is cut to `cap`: the cache is over
/// its cap, `i` is not the current folder, and fewer other entries than the
/// excess were used before it.
pub open spec fn evicted(es: Seq<(Option<String>, DirEntry)>, cap: nat, cur: Option<Seq<char>>, i: int) -> bool {
    &&& es.len() > cap
    &&& key_of(es[i]) != cur
    &&& older_count(es, cur, i, es.len() as int) < es.len() - cap
}

/// The first `n` entries without the evicted ones, in order.
pub open spec fn kept(es: Seq<(Option<String>, DirEntry)>, cap: nat, cur: Option<Seq<char>>, n: int) -> Seq<
    (Option<String>, DirEntry),
>
    decreases n,
{
    if n <= 0 {
        Seq::empty()
    } else if evicted(es, cap, cur, n - 1) {
        kept(es, cap, cur, n - 1)
    } else {
        kept(es, cap, cur, n - 1).push(es[n - 1])
    }
}

/// Milliseconds since `then`; a time after `now` counts as zero.
pub open spec fn age_ms(then: u64, now: u64) -> int {
    if now >= then {
        now - then
    } else {
        0
    }
}

impl DirCache {
    /// An empty cache.
    pub fn new() -> (c: DirCache)
        ensures
            c.entries@.len() == 0,
            c.inflight@.len() == 0,
    {
        DirCache { entries: Vec::new(), inflight: Vec::new() }
    }

    /// Neither list has two slots for one folder.
    pub open spec fn wf(&self) -> bool {
        distinct_keys(self.entries@) && distinct_keys(self.inflight@)
    }

    /// Whether a first-page request for `parent` is on its way.
    pub fn is_inflight(&self, parent: &Option<String>) -> (b: bool)
        requires
            self.wf(),
        ensures
            b == (slot(self.inflight@, opt_view(*parent)) is Some),
    {
        find_slot(&self.inflight, parent).is_some()
    }

    /// Notes that a first-page request `req_id` for `parent` went out; it
    /// replaces any earlier one for that folder.
    pub fn register(&mut self, parent: Option<String>, req_id: u64)
        requires
            old(self).wf(),
        ensures
            final(self).wf(),
            final(self).entries@ == old(self).entries@,
            match slot(old(self).inflight@, opt_view(parent)) {
                Some(i) => final(self).inflight@ == old(self).inflight@.update(i, (old(self).inflight@[i].0, req_id)),
                None => final(self).inflight@ == old(self).inflight@.push((parent, req_id)),
            },
    {
        match find_slot(&self.inflight, &parent) {
            Some(i) => {
                let (k, _) = self.inflight.remove(i);
                self.inflight.insert(i, (k, req_id));
                proof {
                    assert forall|a: int, b: int| 0 <= a < b < self.inflight@.len() implies key_of(
                        self.inflight@[a],
                    ) != key_of(self.inflight@[b]) by {
                        assert(key_of(self.inflight@[a]) == key_of(old(self).inflight@[a]));
                        assert(key_of(self.inflight@[b]) == key_of(old(self).inflight@[b]));
                    }
                }
            },
            None => {
                proof {
                    assert forall|a: int| 0 <= a < old(self).inflight@.len() implies key_of(
                        #[trigger] old(self).inflight@[a],
                    ) != opt_view(parent) by {
                        if key_of(old(self).inflight@[a]) == opt_view(parent) {
                            assert(exists|j: int|
                                0 <= j < old(self).inflight@.len() && key_of(old(self).inflight@[j])
                                    == opt_view(parent));
                        }
                    }
                }
                self.inflight.push((parent, req_id));
            },
        }
    }

    /// Drops `parent`'s cached listing, if any (a forced reload, or a change
    /// made in that folder).
    pub fn forget(&mut self, parent: &Option<String>)
        requires
            old(self).wf(),
        ensures
            final(self).wf(),
            final(self).inflight@ == old(self).inflight@,
            match slot(old(self).entries@, opt_view(*parent)) {
                Some(i) => final(self).entries@ == old(self).entries@.remove(i),
                None => final(self).entries@ == old(self).entries@,
            },
    {
        if let Some(i) = find_slot(&self.entries, parent) {
            self.entries.remove(i);
            proof {
                let o = old(self).entries@;
                assert forall|a: int, b: int| 0 <= a < b < self.entries@.len() implies key_of(
                    self.entries@[a],
                ) != key_of(self.entries@[b]) by {
                    let oa = if a < i { a } else { a + 1 };
                    let ob = if b < i { b } else { b + 1 };
                    assert(self.entries@[a] == o[oa]);
                    assert(self.entries@[b] == o[ob]);
                }
            }
        }
    }

    /// Records the answer to listing request `req_id` for `parent`: `files`
    /// and the next page's token, arrived at `now`. An answer older than the
    /// kept listing is dropped (returns `false`, nothing changes). Otherwise
    /// a first page replaces the folder's files, a later page adds those not
    /// already there, and the first-page request it answers is no longer in
    /// flight.
    pub fn apply(
        &mut self,
        parent: Option<String>,
        req_id: u64,
        append: bool,
        files: Vec<File>,
        next: Option<String>,
        now: u64,
    ) -> (applied: bool)
        requires
            old(self).wf(),
        ensures
            final(self).wf(),
            applied == !is_stale(old(self).entries@, opt_view(parent), req_id),
            !applied ==> final(self).entries@ == old(self).entries@ && final(self).inflight@ == old(
                self,
            ).inflight@,
            applied ==> final(self).inflight@ == settled(old(self).inflight@, opt_view(parent), req_id, append),
            applied ==> match slot(final(self).entries@, opt_view(parent)) {
                Some(j) => final(self).entries@[j].1.req == req_id,
                None => false,
            },
            applied ==> match slot(old(self).entries@, opt_view(parent)) {
                Some(i) => {
                    &&& final(self).entries@.len() == old(self).entries@.len()
                    &&& forall|j: int|
                        0 <= j < old(self).entries@.len() && j != i ==> #[trigger] final(self).entries@[j]
                            == old(self).entries@[j]
                    &&& final(self).entries@[i].0 == old(self).entries@[i].0
                    &&& answered(final(self).entries@[i].1, old(self).entries@[i].1.files@, files@, append, next, req_id, now)
                },
                None => {
                    &&& final(self).entries@.len() == old(self).entries@.len() + 1
                    &&& forall|j: int|
                        0 <= j < old(self).entries@.len() ==> #[trigger] final(self).entries@[j]
                            == old(self).entries@[j]
                    &&& opt_view(final(self).entries@.last().0) == opt_view(parent)
                    &&& answered(final(self).entries@.last().1, Seq::empty(), files@, append, next, req_id, now)
                },
            },
    {
        let found = find_slot(&self.entries, &parent);
        if let Some(i) = found {
            if req_id < self.entries[i].1.req {
                return false;
            }
        }
        if !append {
            if let Some(fi) = find_slot(&self.inflight, &parent) {
                if self.inflight[fi].1 == req_id {
                    self.inflight.remove(fi);
                    proof {
                        let fo = old(self).inflight@;
                        assert forall|a: int, b: int| 0 <= a < b < self.inflight@.len() implies key_of(
                            self.inflight@[a],
                        ) != key_of(self.inflight@[b]) by {
                            let oa = if a < fi { a } else { a + 1 };
                            let ob = if b < fi { b } else { b + 1 };
                            assert(self.inflight@[a] == fo[oa]);
                            assert(self.inflight@[b] == fo[ob]);
                        }
                    }
                }
            }
        }
        let ghost o = self.entries@;
        let (k, base) = match found {
            Some(i) => {
                let (k, e) = self.entries.remove(i);
                (k, e.files)
            },
            None => (parent, Vec::new()),
        };
        let ghost base0 = base@;
        let merged_files = if append {
            merge_page(base, files)
        } else {
            files
        };
        let entry = DirEntry {
            files: merged_files,
            next_token: next,
            fetched_at: now,
            last_used: now,
            req: req_id,
        };
        let ghost kv = opt_view(k);
        match found {
            Some(i) => {
                self.entries.insert(i, (k, entry));
                proof {
                    assert(kv == key_of(o[i as int]));
                    assert(key_of(self.entries@[i as int]) == opt_view(parent));
                    assert forall|a: int, b: int| 0 <= a < b < self.entries@.len() implies key_of(
                        self.entries@[a],
                    ) != key_of(self.entries@[b]) by {
                        assert(key_of(self.entries@[a]) == key_of(o[a]));
                        assert(key_of(self.entries@[b]) == key_of(o[b]));
                    }
                }
            },
            None => {
                proof {
                    assert forall|a: int| 0 <= a < o.len() implies key_of(#[trigger] o[a]) != kv by {
                        if key_of(o[a]) == kv {
                            assert(exists|j: int| 0 <= j < o.len() && key_of(o[j]) == kv);
                        }
                    }
                    assert(base0 == Seq::<File>::empty());
                }
                self.entries.push((k, entry));
                proof {
                    let last = self.entries@.len() - 1;
                    assert(key_of(self.entries@[last]) == opt_view(parent));
                    assert forall|a: int, b: int| 0 <= a < b < self.entries@.len() implies key_of(
                        self.entries@[a],
                    ) != key_of(self.entries@[b]) by {
                        if b < last {
                            assert(self.entries@[a] == o[a] && self.entries@[b] == o[b]);
                        } else {
                            assert(self.entries@[a] == o[a]);
                        }
                    }
                }
            },
        }
        proof {
            let es1 = self.entries@;
            let w = if found is Some {
                found.unwrap() as int
            } else {
                es1.len() - 1
            };
            assert(0 <= w < es1.len() && key_of(es1[w]) == opt_view(parent));
            let c = choose|j: int| 0 <= j < es1.len() && key_of(es1[j]) == opt_view(parent);
            if c != w {
                if c < w {
                    assert(key_of(es1[c]) != key_of(es1[w]));
                } else {
                    assert(key_of(es1[w]) != key_of(es1[c]));
                }
            }
        }
        true
    }

    /// Opens `parent` at `now`: a cached listing is shown and marked used (and
    /// asked for again in the background once older than the fresh period,
    /// unless a request is already out); otherwise the view waits for the
    /// request already out, or a new one is sent.
    pub fn open(&mut self, parent: &Option<String>, now: u64) -> (r: DirOpen)
        requires
            old(self).wf(),
        ensures
            final(self).wf(),
            final(self).inflight@ == old(self).inflight@,
            match slot(old(self).entries@, opt_view(*parent)) {
                Some(i) => {
                    &&& r == DirOpen::Cached {
                        revalidate: age_ms(old(self).entries@[i].1.fetched_at, now) > DIR_TTL_MS
                            && !(slot(old(self).inflight@, opt_view(*parent)) is Some),
                    }
                    &&& final(self).entries@ == old(self).entries@.update(
                        i,
                        (
                            old(self).entries@[i].0,
                            DirEntry { last_used: now, ..old(self).entries@[i].1 },
                        ),
                    )
                },
                None => {
                    &&& final(self).entries@ == old(self).entries@
                    &&& r == if slot(old(self).inflight@, opt_view(*parent)) is Some {
                        DirOpen::Waiting
                    } else {
                        DirOpen::Fetch
                    }
                },
            },
    {
        let busy = self.is_inflight(parent);
        match find_slot(&self.entries, parent) {
            Some(i) => {
                let (k, e) = self.entries.remove(i);
                let age = if now >= e.fetched_at {
                    now - e.fetched_at
                } else {
                    0
                };
                let e2 = DirEntry { last_used: now, ..e };
                self.entries.insert(i, (k, e2));
                proof {
                    let o = old(self).entries@;
                    assert forall|a: int, b: int| 0 <= a < b < self.entries@.len() implies key_of(
                        self.entries@[a],
                    ) != key_of(self.entries@[b]) by {
                        assert(key_of(self.entries@[a]) == key_of(o[a]));
                        assert(key_of(self.entries@[b]) == key_of(o[b]));
                    }
                }
                DirOpen::Cached { revalidate: age > DIR_TTL_MS && !busy }
            },
            None => if busy {
                DirOpen::Waiting
            } else {
                DirOpen::Fetch
            },
        }
    }
}

impl DirCache {
    /// Cuts the cache to `cap` folders when it holds more: the least recently
    /// used folders leave first, and the folder being shown (`current`) stays.
    pub fn evict(&mut self, cap: usize, current: &Option<String>)
        requires
            old(self).wf(),
        ensures
            final(self).wf(),
            final(self).inflight@ == old(self).inflight@,
            final(self).entries@ == kept(
                old(self).entries@,
                cap as nat,
                opt_view(*current),
                old(self).entries@.len() as int,
            ),
    {
        let ghost es = self.entries@;
        let ghost cur = opt_view(*current);
        let n = self.entries.len();
        if n <= cap {
            proof {
                lemma_kept_all(es, cap as nat, cur, n as int);
                assert(es.take(n as int) == es);
            }
            return;
        }
        let mut ranks: Vec<usize> = Vec::new();
        let mut i: usize = 0;
        while i < n
            invariant
                self.entries@ == es,
                n == es.len(),
                cur == opt_view(*current),
                0 <= i <= n,
                ranks@.len() == i,
                forall|a: int| 0 <= a < i ==> #[trigger] ranks@[a] == older_count(es, cur, a, n as int),
            decreases n - i,
        {
            let mut c: usize = 0;
            let mut j: usize = 0;
            while j < n
                invariant
                    self.entries@ == es,
                    n == es.len(),
                    cur == opt_view(*current),
                    0 <= i < n,
                    0 <= j <= n,
                    c == older_count(es, cur, i as int, j as int),
                    c <= j,
                decreases n - j,
            {
                let other = !opt_str_eq(&self.entries[j].0, current);
                let lu_j = self.entries[j].1.last_used;
                let lu_i = self.entries[i].1.last_used;
                let before = lu_j < lu_i || (lu_j == lu_i && j < i);
                if other && before {
                    c = c + 1;
                }
                j += 1;
            }
            ranks.push(c);
            i += 1;
        }
        let excess = n - cap;
        let mut rest: Vec<(Option<String>, DirEntry)> = Vec::new();
        std::mem::swap(&mut rest, &mut self.entries);
        let mut idx: usize = 0;
        while rest.len() > 0
            invariant
                n == es.len(),
                n > cap,
                excess == n - cap,
                cur == opt_view(*current),
                0 <= idx <= n,
                rest@ == es.subrange(idx as int, n as int),
                ranks@.len() == n,
                forall|a: int| 0 <= a < n ==> #[trigger] ranks@[a] == older_count(es, cur, a, n as int),
                self.entries@ == kept(es, cap as nat, cur, idx as int),
                self.inflight@ == old(self).inflight@,
            decreases rest@.len(),
        {
            let e = rest.remove(0);
            proof {
                assert(idx < n);
                assert(e == es[idx as int]);
            }
            let is_cur = opt_str_eq(&e.0, current);
            if is_cur || ranks[idx] >= excess {
                self.entries.push(e);
            }
            idx += 1;
            proof {
                assert(rest@ == es.subrange(idx as int, n as int));
            }
        }
        proof {
            lemma_kept_distinct(es, cap as nat, cur, n as int);
        }
    }
}

/// Once the answer to request `r` is kept for a folder, an answer to any
/// earlier request for that folder is dropped.
pub proof fn lemma_older_answer_dropped(
    es: Seq<(Option<String>, DirEntry)>,
    k: Option<Seq<char>>,
    r: u64,
    earlier: u64,
)
    requires
        distinct_keys(es),
        match slot(es, k) {
            Some(j) => es[j].1.req == r,
            None => false,
        },
        earlier < r,
    ensures
        is_stale(es, k, earlier),
{
}

proof fn lemma_older_count_mono(
    es: Seq<(Option<String>, DirEntry)>,
    cur: Option<Seq<char>>,
    a: int,
    b: int,
    n: int,
)
    requires
        0 <= a < es.len(),
        0 <= b < es.len(),
        used_before(es, a, b),
        0 <= n <= es.len(),
    ensures
        older_count(es, cur, a, n) + (if key_of(es[a]) != cur && a < n {
            1int
        } else {
            0int
        }) <= older_count(es, cur, b, n),
    decreases n,
{
    if n > 0 {
        lemma_older_count_mono(es, cur, a, b, n - 1);
    }
}

/// Cutting the cache to its cap is least-recently-used: the current folder
/// never leaves, and every folder that leaves was used before every other
/// folder that stays.
pub proof fn lemma_evict_lru(
    es: Seq<(Option<String>, DirEntry)>,
    cap: nat,
    cur: Option<Seq<char>>,
    a: int,
    b: int,
)
    requires
        0 <= a < es.len(),
        0 <= b < es.len(),
        evicted(es, cap, cur, a),
        !evicted(es, cap, cur, b),
        key_of(es[b]) != cur,
    ensures
        key_of(es[a]) != cur,
        used_before(es, a, b),
{
    if !used_before(es, a, b) {
        assert(a != b);
        assert(used_before(es, b, a));
        lemma_older_count_mono(es, cur, b, a, es.len() as int);
    }
}

/// How many of the first `m` entries leave when the cache is cut to `cap`.
pub open spec fn evicted_count(es: Seq<(Option<String>, DirEntry)>, cap: nat, cur: Option<Seq<char>>, m: int) -> nat
    decreases m,
{
    if m <= 0 {
        0
    } else {
        evicted_count(es, cap, cur, m - 1) + if evicted(es, cap, cur, m - 1) {
            1nat
        } else {
            0nat
        }
    }
}

/// How many of the first `m` entries are not the current folder's.
pub open spec fn others_count(es: Seq<(Option<String>, DirEntry)>, cur: Option<Seq<char>>, m: int) -> nat
    decreases m,
{
    if m <= 0 {
        0
    } else {
        others_count(es, cur, m - 1) + if key_of(es[m - 1]) != cur {
            1nat
        } else {
            0nat
        }
    }
}

proof fn lemma_kept_len(es: Seq<(Option<String>, DirEntry)>, cap: nat, cur: Option<Seq<char>>, m: int)
    requires
        0 <= m <= es.len(),
    ensures
        kept(es, cap, cur, m).len() + evicted_count(es, cap, cur, m) == m,
        evicted_count(es, cap, cur, m) <= others_count(es, cur, m),
    decreases m,
{
    if m > 0 {
        lemma_kept_len(es, cap, cur, m - 1);
    }
}

/// With distinct folders, at most one entry is the current folder's.
proof fn lemma_one_current(es: Seq<(Option<String>, DirEntry)>, cur: Option<Seq<char>>, m: int)
    requires
        distinct_keys(es),
        0 <= m <= es.len(),
    ensures
        m - others_count(es, cur, m) <= 1,
        m - others_count(es, cur, m) == 1 ==> exists|x: int| 0 <= x < m && key_of(es[x]) == cur,
    decreases m,
{
    if m > 0 {
        lemma_one_current(es, cur, m - 1);
        if key_of(es[m - 1]) == cur && m - 1 - others_count(es, cur, m - 1) == 1 {
            let x = choose|x: int| 0 <= x < m - 1 && key_of(es[x]) == cur;
            assert(key_of(es[x]) != key_of(es[m - 1]));
        }
    }
}

/// If every other folder among the first `m` leaves, all of them are counted.
proof fn lemma_all_others_evicted(es: Seq<(Option<String>, DirEntry)>, cap: nat, cur: Option<Seq<char>>, m: int)
    requires
        0 <= m <= es.len(),
        forall|x: int| 0 <= x < m && key_of(es[x]) != cur ==> evicted(es, cap, cur, x),
    ensures
        evicted_count(es, cap, cur, m) == others_count(es, cur, m),
    decreases m,
{
    if m > 0 {
        lemma_all_others_evicted(es, cap, cur, m - 1);
    }
}

/// Among the first `m` entries, a staying non-current one with the fewest
/// entries used before it.
proof fn lemma_min_rank_stayer(es: Seq<(Option<String>, DirEntry)>, cap: nat, cur: Option<Seq<char>>, m: int) -> (w: int)
    requires
        0 < m <= es.len(),
        exists|x: int| 0 <= x < m && key_of(es[x]) != cur && !evicted(es, cap, cur, x),
    ensures
        0 <= w < m,
        key_of(es[w]) != cur,
        !evicted(es, cap, cur, w),
        forall|x: int|
            0 <= x < m && key_of(es[x]) != cur && !evicted(es, cap, cur, x) ==> older_count(
                es,
                cur,
                w,
                es.len() as int,
            ) <= older_count(es, cur, x, es.len() as int),
    decreases m,
{
    let last = m - 1;
    let last_ok = key_of(es[last]) != cur && !evicted(es, cap, cur, last);
    if exists|x: int| 0 <= x < last && key_of(es[x]) != cur && !evicted(es, cap, cur, x) {
        let w0 = lemma_min_rank_stayer(es, cap, cur, last);
        if last_ok && older_count(es, cur, last, es.len() as int) < older_count(es, cur, w0, es.len() as int) {
            last
        } else {
            w0
        }
    } else {
        last
    }
}

/// If every non-current entry used before `w` leaves, there are at least as
/// many leaving entries as entries used before `w`.
proof fn lemma_older_le_evicted(
    es: Seq<(Option<String>, DirEntry)>,
    cap: nat,
    cur: Option<Seq<char>>,
    w: int,
    m: int,
)
    requires
        0 <= w < es.len(),
        0 <= m <= es.len(),
        forall|x: int|
            0 <= x < m && key_of(es[x]) != cur && used_before(es, x, w) ==> evicted(es, cap, cur, x),
    ensures
        older_count(es, cur, w, m) <= evicted_count(es, cap, cur, m),
    decreases m,
{
    if m > 0 {
        lemma_older_le_evicted(es, cap, cur, w, m - 1);
    }
}

/// After the cache is cut to `cap`, it holds at most `cap` folders (or, with
/// a cap of zero, at most the current one).
pub proof fn lemma_evict_fits(es: Seq<(Option<String>, DirEntry)>, cap: nat, cur: Option<Seq<char>>)
    requires
        distinct_keys(es),
    ensures
        kept(es, cap, cur, es.len() as int).len() <= cap || kept(es, cap, cur, es.len() as int).len() <= 1,
{
    let n = es.len() as int;
    lemma_kept_len(es, cap, cur, n);
    lemma_one_current(es, cur, n);
    if n <= cap {
        return;
    }
    let k = evicted_count(es, cap, cur, n);
    let others = others_count(es, cur, n);
    let excess = n - cap;
    if k < excess && k < others {
        // Some other folder stays: take the staying one with the fewest
        // entries used before it; all of those leave, so it would leave too.
        if !exists|x: int| 0 <= x < n && key_of(es[x]) != cur && !evicted(es, cap, cur, x) {
            lemma_all_others_evicted(es, cap, cur, n);
        }
        let w = lemma_min_rank_stayer(es, cap, cur, n);
        assert forall|x: int|
            0 <= x < n && key_of(es[x]) != cur && used_before(es, x, w) implies evicted(
                es,
                cap,
                cur,
                x,
            ) by {
            lemma_older_count_mono(es, cur, x, w, n);
        }
        lemma_older_le_evicted(es, cap, cur, w, n);
    }
}

/// With the cache not over its cap, nothing leaves.
proof fn lemma_kept_all(es: Seq<(Option<String>, DirEntry)>, cap: nat, cur: Option<Seq<char>>, m: int)
    requires
        es.len() <= cap,
        0 <= m <= es.len(),
    ensures
        kept(es, cap, cur, m) == es.take(m),
    decreases m,
{
    if m > 0 {
        lemma_kept_all(es, cap, cur, m - 1);
        assert(es.take(m) == es.take(m - 1).push(es[m - 1]));
    }
}

/// Every kept entry is an earlier entry, kept in order.
proof fn lemma_kept_elems(es: Seq<(Option<String>, DirEntry)>, cap: nat, cur: Option<Seq<char>>, m: int)
    requires
        0 <= m <= es.len(),
    ensures
        kept(es, cap, cur, m).len() <= m,
        forall|a: int| 0 <= a < kept(es, cap, cur, m).len() ==> exists|x: int|
            0 <= x < m && #[trigger] kept(es, cap, cur, m)[a] == es[x],
    decreases m,
{
    if m > 0 {
        lemma_kept_elems(es, cap, cur, m - 1);
        let prev = kept(es, cap, cur, m - 1);
        let now = kept(es, cap, cur, m);
        assert forall|a: int| 0 <= a < now.len() implies exists|x: int|
            0 <= x < m && #[trigger] now[a] == es[x] by {
            if a < prev.len() {
                assert(now[a] == prev[a]);
                let x = choose|x: int| 0 <= x < m - 1 && prev[a] == es[x];
                assert(0 <= x < m && now[a] == es[x]);
            } else {
                assert(now[a] == es[m - 1]);
            }
        }
    }
}

/// Cutting the cache keeps each folder at most once.
proof fn lemma_kept_distinct(es: Seq<(Option<String>, DirEntry)>, cap: nat, cur: Option<Seq<char>>, m: int)
    requires
        distinct_keys(es),
        0 <= m <= es.len(),
    ensures
        distinct_keys(kept(es, cap, cur, m)),
    decreases m,
{
    if m > 0 {
        lemma_kept_distinct(es, cap, cur, m - 1);
        lemma_kept_elems(es, cap, cur, m - 1);
        let prev = kept(es, cap, cur, m - 1);
        let now = kept(es, cap, cur, m);
        if !evicted(es, cap, cur, m - 1) {
            assert forall|a: int, b: int| 0 <= a < b < now.len() implies key_of(now[a]) != key_of(
                now[b],
            ) by {
                if b < prev.len() {
                    assert(now[a] == prev[a] && now[b] == prev[b]);
                } else {
                    assert(now[b] == es[m - 1]);
                    assert(now[a] == prev[a]);
                    let x = choose|x: int| 0 <= x < m - 1 && prev[a] == es[x];
                    assert(key_of(es[x]) != key_of(es[m - 1]));
                }
            }
        }
    }
}

/// Takes out of `hidden` the ids hidden in `listing_parent` that its fresh
/// listing `present` no longer shows; ids hidden elsewhere stay.
pub fn retain_hidden(
    hidden: &mut Vec<(String, Option<String>)>,
    listing_parent: &Option<String>,
    present: &[File],
)
    ensures
        final(hidden)@ == old(hidden)@.filter(
            |h: (String, Option<String>)|
                opt_view(h.1) != opt_view(*listing_parent) || ids_of(present@).contains(h.0@),
        ),
{
    let ghost h0 = hidden@;
    let ghost pred = |h: (String, Option<String>)|
        opt_view(h.1) != opt_view(*listing_parent) || ids_of(present@).contains(h.0@);
    let mut rest: Vec<(String, Option<String>)> = Vec::new();
    std::mem::swap(&mut rest, hidden);
    let total = rest.len();
    let mut k: usize = 0;
    while rest.len() > 0
        invariant
            total == h0.len(),
            0 <= k <= h0.len(),
            rest@ == h0.subrange(k as int, h0.len() as int),
            hidden@ == h0.take(k as int).filter(pred),
            pred == (|h: (String, Option<String>)|
                opt_view(h.1) != opt_view(*listing_parent) || ids_of(present@).contains(h.0@)),
        decreases rest@.len(),
    {
        let h = rest.remove(0);
        proof {
            assert(k < h0.len());
            assert(h == h0[k as int]);
            assert(h0.take(k + 1) == h0.take(k as int).push(h));
            h0.take(k as int).lemma_filter_push(h, pred);
        }
        let elsewhere = !opt_str_eq(&h.1, listing_parent);
        let mut shown = false;
        let mut j: usize = 0;
        while j < present.len()
            invariant
                0 <= j <= present@.len(),
                shown == (exists|m: int| 0 <= m < j && #[trigger] present@[m].id@ == h.0@),
            decreases present@.len() - j,
        {
            if str_eq(present[j].id.as_str(), h.0.as_str()) {
                shown = true;
            }
            j += 1;
        }
        proof {
            if shown {
                let m = choose|m: int| 0 <= m < present@.len() && #[trigger] present@[m].id@ == h.0@;
                assert(ids_of(present@)[m] == h.0@);
            } else if ids_of(present@).contains(h.0@) {
                let m = choose|m: int| 0 <= m < ids_of(present@).len() && ids_of(present@)[m] == h.0@;
                assert(present@[m].id@ == h.0@);
            }
        }
        if elsewhere || shown {
            hidden.push(h);
        }
        k = k + 1;
        proof {
            assert(rest@ == h0.subrange(k as int, h0.len() as int));
        }
    }
    proof {
        assert(h0.take(k as int) == h0);
    }
}

/// Merges a page of a listing into the files shown so far: a first page
/// replaces them, a later one adds the files not already there, in order.
pub fn merge_listing(files: &mut Vec<File>, page: Vec<File>, append: bool)
    ensures
        final(files)@ == merged(old(files)@, page@, append),
{
    if append {
        let mut base: Vec<File> = Vec::new();
        std::mem::swap(&mut base, files);
        *files = merge_page(base, page);
    } else {
        *files = page;
    }
}

/// Whether `id` is one of `ids`.
pub open spec fn among(ids: Seq<String>, id: Seq<char>) -> bool {
    exists|k: int| 0 <= k < ids.len() && ids[k]@ == id
}

fn among_exec(ids: &[String], id: &str) -> (b: bool)
    ensures
        b == among(ids@, id@),
{
    let mut k: usize = 0;
    while k < ids.len()
        invariant
            0 <= k <= ids@.len(),
            forall|q: int| 0 <= q < k ==> (#[trigger] ids@[q])@ != id@,
        decreases ids@.len() - k,
    {
        if str_eq(ids[k].as_str(), id) {
            return true;
        }
        k += 1;
    }
    false
}

/// Takes the files with the given ids out of a list, keeping the order.
pub fn drop_ids(files: &mut Vec<File>, ids: &[String])
    ensures
        final(files)@ == old(files)@.filter(|f: File| !among(ids@, f.id@)),
{
    let ghost f0 = files@;
    let ghost pred = |f: File| !among(ids@, f.id@);
    let mut rest: Vec<File> = Vec::new();
    std::mem::swap(&mut rest, files);
    let total = rest.len();
    let mut k: usize = 0;
    while rest.len() > 0
        invariant
            total == f0.len(),
            0 <= k <= f0.len(),
            rest@ == f0.subrange(k as int, f0.len() as int),
            files@ == f0.take(k as int).filter(pred),
            pred == (|f: File| !among(ids@, f.id@)),
        decreases rest@.len(),
    {
        let f = rest.remove(0);
        proof {
            assert(k < f0.len());
            assert(f == f0[k as int]);
            assert(f0.take(k + 1) == f0.take(k as int).push(f));
            f0.take(k as int).lemma_filter_push(f, pred);
        }
        if !among_exec(ids, f.id.as_str()) {
            files.push(f);
        }
        k = k + 1;
        proof {
            assert(rest@ == f0.subrange(k as int, f0.len() as int));
        }
    }
    proof {
        assert(f0.take(k as int) == f0);
    }
}

/// The folder an id is hidden in, if it is hidden.
pub open spec fn hidden_at(hidden: Seq<(String, Option<String>)>, id: Seq<char>) -> Option<Option<Seq<char>>> {
    if exists|k: int| 0 <= k < hidden.len() && hidden[k].0@ == id {
        Some(opt_view(hidden[choose|k: int| 0 <= k < hidden.len() && hidden[k].0@ == id].1))
    } else {
        None
    }
}

/// No id is hidden twice.
pub open spec fn distinct_hidden(hidden: Seq<(String, Option<String>)>) -> bool {
    forall|a: int, b: int| 0 <= a < b < hidden.len() ==> hidden[a].0@ != hidden[b].0@
}

/// Hides each moved id in the folder it was moved out of (`src`) until a
/// fresh listing of that folder no longer shows it; an id hidden before is
/// now hidden in `src`.
pub fn hide_moved(hidden: &mut Vec<(String, Option<String>)>, ids: &[String], src: &Option<String>)
    requires
        distinct_hidden(old(hidden)@),
    ensures
        distinct_hidden(final(hidden)@),
        forall|id: Seq<char>|
            #[trigger] hidden_at(final(hidden)@, id) == if among(ids@, id) {
                Some(opt_view(*src))
            } else {
                hidden_at(old(hidden)@, id)
            },
{
    let mut k: usize = 0;
    while k < ids.len()
        invariant
            0 <= k <= ids@.len(),
            distinct_hidden(hidden@),
            forall|id: Seq<char>|
                #[trigger] hidden_at(hidden@, id) == if among(ids@.take(k as int), id) {
                    Some(opt_view(*src))
                } else {
                    hidden_at(old(hidden)@, id)
                },
        decreases ids@.len() - k,
    {
        let ghost h0 = hidden@;
        let id = &ids[k];
        let mut j: usize = 0;
        let mut at: Option<usize> = None;
        while j < hidden.len()
            invariant
                hidden@ == h0,
                0 <= j <= h0.len(),
                at is None ==> forall|q: int| 0 <= q < j ==> (#[trigger] h0[q]).0@ != id@,
                at matches Some(w) ==> w < h0.len() && h0[w as int].0@ == id@,
            decreases h0.len() - j,
        {
            if at.is_none() && str_eq(hidden[j].0.as_str(), id.as_str()) {
                at = Some(j);
            }
            j += 1;
        }
        let entry = (id.clone(), match src {
            Some(x) => Some(x.clone()),
            None => None,
        });
        match at {
            Some(w) => {
                hidden.set(w, entry);
            },
            None => {
                hidden.push(entry);
            },
        }
        proof {
            let h1 = hidden@;
            assert(ids@.take(k + 1) == ids@.take(k as int).push(ids@[k as int]));
            let w_new: int = match at {
                Some(w) => w as int,
                None => h0.len() as int,
            };
            assert forall|a: int, b: int| 0 <= a < b < h1.len() implies h1[a].0@ != h1[b].0@ by {
                if a == w_new {
                    assert(h1[b] == h0[b]);
                } else if b == w_new {
                    assert(h1[a] == h0[a]);
                } else {
                    assert(h1[a] == h0[a] && h1[b] == h0[b]);
                }
            }
            assert forall|x: Seq<char>|
                #[trigger] hidden_at(h1, x) == if among(ids@.take(k + 1), x) {
                    Some(opt_view(*src))
                } else {
                    hidden_at(old(hidden)@, x)
                } by {
                let t0 = ids@.take(k as int);
                let t1 = ids@.take(k + 1);
                assert(among(t1, x) == (among(t0, x) || id@ == x)) by {
                    if among(t1, x) {
                        let q = choose|q: int| 0 <= q < t1.len() && t1[q]@ == x;
                        if q < k {
                            assert(t0[q] == t1[q]);
                        }
                    }
                    if among(t0, x) {
                        let q = choose|q: int| 0 <= q < t0.len() && t0[q]@ == x;
                        assert(t1[q] == t0[q]);
                    }
                    if id@ == x {
                        assert(t1[k as int] == ids@[k as int]);
                    }
                }
                assert(h1[w_new].0@ == id@);
                assert(opt_view(h1[w_new].1) == opt_view(*src));
                assert(hidden_at(h0, x) == if among(t0, x) {
                    Some(opt_view(*src))
                } else {
                    hidden_at(old(hidden)@, x)
                });
                if x == id@ {
                    let c = choose|q: int| 0 <= q < h1.len() && h1[q].0@ == x;
                    if c != w_new {
                        if c < w_new {
                            assert(h1[c].0@ != h1[w_new].0@);
                        } else {
                            assert(h1[w_new].0@ != h1[c].0@);
                        }
                    }
                } else {
                    if exists|q: int| 0 <= q < h1.len() && h1[q].0@ == x {
                        let c = choose|q: int| 0 <= q < h1.len() && h1[q].0@ == x;
                        assert(c != w_new);
                        assert(h1[c] == h0[c]);
                        let c0 = choose|q: int| 0 <= q < h0.len() && h0[q].0@ == x;
                        if c0 != c {
                            if c0 < c {
                                assert(h0[c0].0@ != h0[c].0@);
                            } else {
                                assert(h0[c].0@ != h0[c0].0@);
                            }
                        }
                    } else {
                        if exists|q: int| 0 <= q < h0.len() && h0[q].0@ == x {
                            let c0 = choose|q: int| 0 <= q < h0.len() && h0[q].0@ == x;
                            if c0 == w_new {
                                assert(h0[c0].0@ == id@);
                            }
                            assert(h1[c0] == h0[c0]);
                        }
                    }
                }
            }
        }
        k += 1;
    }
    proof {
        assert(ids@.take(ids@.len() as int) == ids@);
    }
}

impl DirCache {
    /// Takes the files with the given ids out of `parent`'s cached listing
    /// (they were moved away).
    pub fn drop_files(&mut self, parent: &Option<String>, ids: &[String])
        requires
            old(self).wf(),
        ensures
            final(self).wf(),
            final(self).inflight@ == old(self).inflight@,
            match slot(old(self).entries@, opt_view(*parent)) {
                Some(i) => {
                    &&& final(self).entries@.len() == old(self).entries@.len()
                    &&& forall|j: int|
                        0 <= j < old(self).entries@.len() && j != i ==> #[trigger] final(self).entries@[j]
                            == old(self).entries@[j]
                    &&& final(self).entries@[i].0 == old(self).entries@[i].0
                    &&& final(self).entries@[i].1 == (DirEntry {
                        files: final(self).entries@[i].1.files,
                        ..old(self).entries@[i].1
                    })
                    &&& final(self).entries@[i].1.files@ == old(self).entries@[i].1.files@.filter(
                        |f: File| !among(ids@, f.id@),
                    )
                },
                None => final(self).entries@ == old(self).entries@,
            },
    {
        if let Some(i) = find_slot(&self.entries, parent) {
            let (k, mut e) = self.entries.remove(i);
            drop_ids(&mut e.files, ids);
            self.entries.insert(i, (k, e));
            proof {
                let o = old(self).entries@;
                assert forall|a: int, b: int| 0 <= a < b < self.entries@.len() implies key_of(
                    self.entries@[a],
                ) != key_of(self.entries@[b]) by {
                    assert(key_of(self.entries@[a]) == key_of(o[a]));
                    assert(key_of(self.entries@[b]) == key_of(o[b]));
                }
            }
        }
    }
}

/// Adds to `base` the files of `page` whose ids are not among `base`'s.
fn merge_page(base: Vec<File>, page: Vec<File>) -> (out: Vec<File>)
    ensures
        out@ == base@ + new_on_page(base@, page@),
{
    let ghost b0 = base@;
    let ghost p0 = page@;
    let ghost pred = |f: File| !ids_of(b0).contains(f.id@);
    let n0 = base.len();
    let mut out = base;
    let mut page = page;
    let total = page.len();
    assert(p0.len() == total);
    let mut k: usize = 0;
    while page.len() > 0
        invariant
            n0 == b0.len(),
            out@.len() >= n0,
            out@.subrange(0, n0 as int) == b0,
            out@.subrange(n0 as int, out@.len() as int) == p0.take(k as int).filter(pred),
            page@ == p0.subrange(k as int, p0.len() as int),
            k <= p0.len(),
            p0.len() <= usize::MAX,
            pred == (|f: File| !ids_of(b0).contains(f.id@)),
        decreases page@.len(),
    {
        let f = page.remove(0);
        proof {
            assert(k < p0.len());
            assert(f == p0[k as int]);
            assert(p0.take(k + 1) == p0.take(k as int).push(f));
            p0.take(k as int).lemma_filter_push(f, pred);
        }
        let mut seen = false;
        let mut j: usize = 0;
        while j < n0
            invariant
                n0 == b0.len(),
                out@.len() >= n0,
                out@.subrange(0, n0 as int) == b0,
                0 <= j <= n0,
                k < p0.len(),
                p0.len() <= usize::MAX,
                seen == (exists|m: int| 0 <= m < j && #[trigger] b0[m].id@ == f.id@),
            decreases n0 - j,
        {
            assert(out@[j as int] == b0[j as int]);
            if str_eq(out[j].id.as_str(), f.id.as_str()) {
                seen = true;
            }
            j += 1;
        }
        proof {
            if seen {
                let m = choose|m: int| 0 <= m < n0 && #[trigger] b0[m].id@ == f.id@;
                assert(ids_of(b0)[m] == f.id@);
                assert(ids_of(b0).contains(f.id@));
            } else {
                if ids_of(b0).contains(f.id@) {
                    let m = choose|m: int| 0 <= m < ids_of(b0).len() && ids_of(b0)[m] == f.id@;
                    assert(b0[m].id@ == f.id@);
                }
            }
        }
        let ghost before = out@;
        if !seen {
            out.push(f);
            proof {
                assert(out@.subrange(0, n0 as int) == before.subrange(0, n0 as int));
                assert(out@.subrange(n0 as int, out@.len() as int) == before.subrange(
                    n0 as int,
                    before.len() as int,
                ).push(f));
            }
        }
        k = k + 1;
        proof {
            assert(page@ == p0.subrange(k as int, p0.len() as int));
        }
    }
    proof {
        assert(p0.take(k as int) == p0);
        assert(out@ == out@.subrange(0, n0 as int) + out@.subrange(n0 as int, out@.len() as int));
    }
    out
}

} // verus!
