//! Disk cache eviction: the preview cache and the thumbnail cache share one
//! LRU by modification time.
//!
//! The caps are soft: entries inside the exemption window, entries in use, and
//! entries that alone exceed a cap are kept, and a sweep makes a single pass,
//! so a cache may stay over its caps. A sweep is driven from outside: the
//! caller scans the cache directory into `CacheEntry` values, asks the sweeper
//! which entry to delete next, deletes it, and reports whether that worked.

use vstd::prelude::*;

use crate::paths::{path_eq, path_starts_with, same_path, starts_with_path};

verus! {

/// Eviction limits. Times are in nanoseconds.
#[derive(Clone, Copy, Debug)]
pub struct Caps {
    /// Byte cap for the whole cache directory.
    pub max_bytes: u64,
    /// Entry cap (a preview counts per `<file_id>/` directory, a thumbnail per file).
    pub max_entries: usize,
    /// Exemption window: entries changed this recently are not deleted (files
    /// being written, or just handed to a viewer).
    pub min_age: u64,
}

/// Caps of the preview cache: 512 MiB, 200 entries, five minutes' exemption.
pub fn preview_caps() -> (c: Caps)
    ensures
        c.max_bytes == 512 * 1024 * 1024,
        c.max_entries == 200,
        c.min_age == 300 * 1_000_000_000,
{
    Caps { max_bytes: 536870912, max_entries: 200, min_age: 300_000_000_000 }
}

/// Caps of the thumbnail cache: 128 MiB, 1000 entries, five minutes' exemption.
pub fn thumb_caps() -> (c: Caps)
    ensures
        c.max_bytes == 128 * 1024 * 1024,
        c.max_entries == 1000,
        c.min_age == 300 * 1_000_000_000,
{
    Caps { max_bytes: 134217728, max_entries: 1000, min_age: 300_000_000_000 }
}

/// The result of one sweep.
#[derive(Clone, Copy, Debug, Default)]
pub struct Sweep {
    /// Occupation after the sweep.
    pub bytes: u64,
    pub entries: usize,
    /// How many entries this sweep deleted, and the bytes it freed.
    pub removed: usize,
    pub freed: u64,
}

/// A first-level entry of a cache directory.
#[derive(Debug)]
pub struct CacheEntry {
    pub path: String,
    /// Bytes it occupies (for a directory, its whole subtree).
    pub bytes: u64,
    /// Last use, in nanoseconds since the Unix epoch: the modification time,
    /// for a directory the newest one in its subtree.
    pub used: u64,
    pub is_dir: bool,
}

/// Total bytes of a list of entries.
pub open spec fn total(s: Seq<CacheEntry>) -> nat
    decreases s.len(),
{
    if s.len() == 0 {
        0
    } else {
        s[0].bytes as nat + total(s.drop_first())
    }
}

/// Whether `i` is the first of the least recently used entries.
pub open spec fn is_oldest(s: Seq<CacheEntry>, i: int) -> bool {
    &&& 0 <= i < s.len()
    &&& forall|j: int| 0 <= j < s.len() ==> s[i].used <= #[trigger] s[j].used
    &&& forall|j: int| 0 <= j < i ==> #[trigger] s[j].used > s[i].used
}

/// The first of the least recently used entries.
pub open spec fn oldest(s: Seq<CacheEntry>) -> int {
    choose|i: int| is_oldest(s, i)
}

/// The entries ordered by last use, oldest first; entries used at the same
/// time keep their order (a stable sort by `used`).
pub open spec fn by_use(s: Seq<CacheEntry>) -> Seq<CacheEntry>
    decreases s.len(),
{
    if s.len() == 0 {
        Seq::empty()
    } else {
        let i = oldest(s);
        if 0 <= i < s.len() {
            seq![s[i]] + by_use(s.remove(i))
        } else {
            Seq::empty()
        }
    }
}

/// Whether an entry is held by a path in use: the path itself is in use, or
/// (for a directory entry) it contains a path in use.
pub open spec fn is_blocked(path: Seq<char>, is_dir: bool, in_use: Seq<String>) -> bool {
    (exists|i: int| 0 <= i < in_use.len() && same_path(#[trigger] in_use[i]@, path)) || (is_dir
        && exists|i: int| 0 <= i < in_use.len() && path_starts_with(#[trigger] in_use[i]@, path))
}

/// Age of an entry at `now`; a use time in the future counts as age zero.
pub open spec fn age(e: CacheEntry, now: u64) -> int {
    if now >= e.used {
        now - e.used
    } else {
        0
    }
}

proof fn lemma_total_skip(s: Seq<CacheEntry>, k: int)
    requires
        0 <= k < s.len(),
    ensures
        total(s.skip(k)) == s[k].bytes + total(s.skip(k + 1)),
{
    assert(s.skip(k).drop_first() == s.skip(k + 1));
    assert(s.skip(k)[0] == s[k]);
}

proof fn lemma_total_skip_mono(s: Seq<CacheEntry>, a: int, b: int)
    requires
        0 <= a <= b <= s.len(),
    ensures
        total(s.skip(a)) >= total(s.skip(b)),
    decreases b - a,
{
    if a < b {
        lemma_total_skip(s, a);
        lemma_total_skip_mono(s, a + 1, b);
    }
}

proof fn lemma_total_remove(s: Seq<CacheEntry>, i: int)
    requires
        0 <= i < s.len(),
    ensures
        total(s) == s[i].bytes + total(s.remove(i)),
    decreases s.len(),
{
    if i > 0 {
        lemma_total_remove(s.drop_first(), i - 1);
        assert(s.remove(i).drop_first() == s.drop_first().remove(i - 1));
        assert(s.remove(i)[0] == s[0]);
    } else {
        assert(s.remove(0) == s.drop_first());
    }
}

proof fn lemma_oldest_exists(s: Seq<CacheEntry>)
    requires
        s.len() > 0,
    ensures
        is_oldest(s, oldest(s)),
    decreases s.len(),
{
    let n = s.len() - 1;
    let p = s.drop_last();
    let w: int = if n == 0 {
        0
    } else {
        lemma_oldest_exists(p);
        let pw = oldest(p);
        assert(s[pw] == p[pw]);
        if s[n].used < p[pw].used {
            n
        } else {
            pw
        }
    };
    assert forall|j: int| 0 <= j < s.len() implies s[w].used <= #[trigger] s[j].used by {
        if j < n {
            assert(s[j] == p[j]);
        }
    }
    assert forall|j: int| 0 <= j < w implies #[trigger] s[j].used > s[w].used by {
        assert(s[j] == p[j]);
    }
    assert(is_oldest(s, w));
}

proof fn lemma_oldest_unique(s: Seq<CacheEntry>, i: int, j: int)
    requires
        is_oldest(s, i),
        is_oldest(s, j),
    ensures
        i == j,
{
    if i < j {
        assert(s[i].used > s[j].used);
    } else if j < i {
        assert(s[j].used > s[i].used);
    }
}

/// Sorting by use keeps the total size.
pub proof fn lemma_by_use_total(s: Seq<CacheEntry>)
    ensures
        total(by_use(s)) == total(s),
        by_use(s).len() == s.len(),
    decreases s.len(),
{
    if s.len() > 0 {
        lemma_oldest_exists(s);
        let i = oldest(s);
        lemma_by_use_total(s.remove(i));
        lemma_total_remove(s, i);
        let b = by_use(s);
        assert(b.drop_first() == by_use(s.remove(i)));
    }
}

/// Orders entries by last use, oldest first, keeping the order of ties.
fn order_by_use(entries: Vec<CacheEntry>) -> (out: Vec<CacheEntry>)
    ensures
        out@ == by_use(entries@),
{
    let mut rest = entries;
    let mut out: Vec<CacheEntry> = Vec::new();
    let ghost orig = rest@;
    while rest.len() > 0
        invariant
            out@ + by_use(rest@) == by_use(orig),
        decreases rest@.len(),
    {
        let mut m: usize = 0;
        let mut i: usize = 1;
        while i < rest.len()
            invariant
                0 <= m < i <= rest@.len(),
                forall|j: int| 0 <= j < i ==> rest@[m as int].used <= #[trigger] rest@[j].used,
                forall|j: int| 0 <= j < m ==> #[trigger] rest@[j].used > rest@[m as int].used,
            decreases rest@.len() - i,
        {
            if rest[i].used < rest[m].used {
                m = i;
            }
            i += 1;
        }
        proof {
            assert(is_oldest(rest@, m as int));
            lemma_oldest_exists(rest@);
            lemma_oldest_unique(rest@, m as int, oldest(rest@));
        }
        let ghost before = rest@;
        let e = rest.remove(m);
        out.push(e);
        proof {
            assert(by_use(before) == seq![before[m as int]] + by_use(rest@));
            assert(out@ + by_use(rest@) == (out@.drop_last() + by_use(before)));
        }
    }
    assert(out@ + by_use(rest@) == out@);
    out
}

/// Whether the entry at `path` is held by a path in use (see `is_blocked`).
pub fn blocked(path: &str, is_dir: bool, in_use: &[String]) -> (b: bool)
    ensures
        b == is_blocked(path@, is_dir, in_use@),
{
    let mut i: usize = 0;
    while i < in_use.len()
        invariant
            0 <= i <= in_use@.len(),
            forall|j: int| 0 <= j < i ==> !same_path(#[trigger] in_use@[j]@, path@),
        decreases in_use@.len() - i,
    {
        if path_eq(in_use[i].as_str(), path) {
            return true;
        }
        i += 1;
    }
    if !is_dir {
        return false;
    }
    let mut i: usize = 0;
    while i < in_use.len()
        invariant
            0 <= i <= in_use@.len(),
            is_dir,
            forall|j: int| 0 <= j < i ==> !path_starts_with(#[trigger] in_use@[j]@, path@),
        decreases in_use@.len() - i,
    {
        if starts_with_path(in_use[i].as_str(), path) {
            assert(path_starts_with(in_use@[i as int]@, path@));
            return true;
        }
        i += 1;
    }
    false
}

/// Whether the caps hold with `bytes` bytes in `left` entries (never, for a purge).
pub open spec fn caps_hold(caps: Option<Caps>, bytes: int, left: int) -> bool {
    match caps {
        Some(c) => bytes <= c.max_bytes && left <= c.max_entries,
        None => false,
    }
}

/// Whether a pass leaves entry `e` alone: it is held by a path in use, or
/// (against caps) it was used within the exemption window.
pub open spec fn protected(e: CacheEntry, caps: Option<Caps>, in_use: Seq<String>, now: u64) -> bool {
    is_blocked(e.path@, e.is_dir, in_use) || match caps {
        Some(c) => age(e, now) < c.min_age,
        None => false,
    }
}

/// The indices a pass deletes from position `pos` on, when every deletion
/// succeeds, with `bytes` bytes left and `removed` entries deleted so far:
/// entries are taken in order, protected ones passed over, until the caps
/// hold or the entries run out.
pub open spec fn deleted_from(
    es: Seq<CacheEntry>,
    caps: Option<Caps>,
    in_use: Seq<String>,
    now: u64,
    pos: int,
    bytes: int,
    removed: int,
) -> Seq<int>
    decreases es.len() - pos,
{
    if pos < 0 || pos >= es.len() || caps_hold(caps, bytes, es.len() - removed) {
        Seq::empty()
    } else if protected(es[pos], caps, in_use, now) {
        deleted_from(es, caps, in_use, now, pos + 1, bytes, removed)
    } else {
        seq![pos] + deleted_from(es, caps, in_use, now, pos + 1, bytes - es[pos].bytes, removed + 1)
    }
}

/// Bytes of the first `m` of the entries at indices `d`.
pub open spec fn freed_by(es: Seq<CacheEntry>, d: Seq<int>, m: int) -> int
    decreases m,
{
    if m <= 0 {
        0
    } else {
        freed_by(es, d, m - 1) + es[d[m - 1]].bytes
    }
}

/// Everything a whole pass deletes over `es` (in the order considered), when
/// every deletion succeeds.
pub open spec fn pass_deletes(es: Seq<CacheEntry>, caps: Option<Caps>, in_use: Seq<String>, now: u64) -> Seq<int> {
    deleted_from(es, caps, in_use, now, 0, total(es) as int, 0)
}

/// Protected entries do not change what the pass goes on to delete.
proof fn lemma_skip_run(
    es: Seq<CacheEntry>,
    caps: Option<Caps>,
    in_use: Seq<String>,
    now: u64,
    a: int,
    b: int,
    bytes: int,
    removed: int,
)
    requires
        0 <= a <= b <= es.len(),
        forall|j: int| a <= j < b ==> #[trigger] protected(es[j], caps, in_use, now),
    ensures
        deleted_from(es, caps, in_use, now, a, bytes, removed) == deleted_from(es, caps, in_use, now, b, bytes, removed),
    decreases b - a,
{
    if a < b {
        lemma_skip_run(es, caps, in_use, now, a + 1, b, bytes, removed);
        assert(protected(es[a], caps, in_use, now));
    }
}

proof fn lemma_freed_by_cons(es: Seq<CacheEntry>, p: int, d: Seq<int>, m: int)
    requires
        1 <= m <= d.len() + 1,
    ensures
        freed_by(es, seq![p] + d, m) == es[p].bytes + freed_by(es, d, m - 1),
    decreases m,
{
    let c = seq![p] + d;
    if m > 1 {
        lemma_freed_by_cons(es, p, d, m - 1);
        assert(c[m - 1] == d[m - 2]);
        assert(freed_by(es, c, m) == freed_by(es, c, m - 1) + es[c[m - 1]].bytes);
        assert(freed_by(es, d, m - 1) == freed_by(es, d, m - 2) + es[d[m - 2]].bytes);
    } else {
        assert(c[0] == p);
        assert(freed_by(es, c, 0) == 0);
        assert(freed_by(es, c, 1) == freed_by(es, c, 0) + es[c[0]].bytes);
        assert(freed_by(es, d, 0) == 0);
    }
}

/// What a pass deletes: unprotected entries, in the order considered; no
/// unprotected entry before a deleted one is left; when it stops, the caps
/// hold or no unprotected entry is left; and it never stops early: before
/// each of its deletions the caps did not hold.
pub proof fn lemma_deleted_from(
    es: Seq<CacheEntry>,
    caps: Option<Caps>,
    in_use: Seq<String>,
    now: u64,
    pos: int,
    bytes: int,
    removed: int,
)
    requires
        0 <= pos,
    ensures
        ({
            let d = deleted_from(es, caps, in_use, now, pos, bytes, removed);
            &&& forall|i: int| 0 <= i < d.len() ==> pos <= #[trigger] d[i] < es.len() && !protected(es[d[i]], caps, in_use, now)
            &&& forall|i: int, j: int| 0 <= i < j < d.len() ==> d[i] < d[j]
            &&& forall|u: int, k: int|
                0 <= k < d.len() && pos <= u < #[trigger] d[k] && !protected(#[trigger] es[u], caps, in_use, now) ==> d.contains(u)
            &&& (caps_hold(caps, bytes - freed_by(es, d, d.len() as int), es.len() - removed - d.len())
                || forall|u: int| pos <= u < es.len() && !protected(#[trigger] es[u], caps, in_use, now) ==> d.contains(u))
            &&& forall|m: int| 0 <= m < d.len() ==> !caps_hold(caps, bytes - #[trigger] freed_by(es, d, m), es.len() - removed - m)
        }),
    decreases es.len() - pos,
{
    let d = deleted_from(es, caps, in_use, now, pos, bytes, removed);
    if pos >= es.len() || caps_hold(caps, bytes, es.len() - removed) {
        assert(d.len() == 0);
        assert(freed_by(es, d, 0) == 0);
    } else if protected(es[pos], caps, in_use, now) {
        lemma_deleted_from(es, caps, in_use, now, pos + 1, bytes, removed);
        assert forall|u: int| pos <= u < es.len() && !protected(#[trigger] es[u], caps, in_use, now) && !d.contains(u)
            implies u >= pos + 1 by {}
    } else {
        let b = es[pos].bytes as int;
        let t = deleted_from(es, caps, in_use, now, pos + 1, bytes - b, removed + 1);
        lemma_deleted_from(es, caps, in_use, now, pos + 1, bytes - b, removed + 1);
        assert(d == seq![pos] + t);
        assert forall|i: int| 0 <= i < d.len() implies pos <= #[trigger] d[i] < es.len() && !protected(
            es[d[i]],
            caps,
            in_use,
            now,
        ) by {
            if i > 0 {
                assert(d[i] == t[i - 1]);
            }
        }
        assert forall|i: int, j: int| 0 <= i < j < d.len() implies d[i] < d[j] by {
            if i > 0 {
                assert(d[i] == t[i - 1]);
            }
            assert(d[j] == t[j - 1]);
        }
        assert forall|u: int, k: int|
            0 <= k < d.len() && pos <= u < #[trigger] d[k] && !protected(#[trigger] es[u], caps, in_use, now) implies d.contains(u) by {
            if u == pos {
                assert(d[0] == u);
            } else {
                assert(k > 0);
                assert(d[k] == t[k - 1]);
                assert(t.contains(u));
                let q = choose|q: int| 0 <= q < t.len() && t[q] == u;
                assert(d[q + 1] == u);
            }
        }
        lemma_freed_by_cons(es, pos, t, d.len() as int);
        assert forall|u: int| pos <= u < es.len() && !protected(#[trigger] es[u], caps, in_use, now) && t.contains(u)
            implies d.contains(u) by {
            let q = choose|q: int| 0 <= q < t.len() && t[q] == u;
            assert(d[q + 1] == u);
        }
        if !caps_hold(caps, bytes - freed_by(es, d, d.len() as int), es.len() - removed - d.len()) {
            assert forall|u: int| pos <= u < es.len() && !protected(#[trigger] es[u], caps, in_use, now) implies d.contains(u) by {
                if u == pos {
                    assert(d[0] == u);
                } else {
                    assert(t.contains(u));
                }
            }
        }
        assert forall|m: int| 0 <= m < d.len() implies !caps_hold(caps, bytes - #[trigger] freed_by(es, d, m), es.len() - removed - m) by {
            if m > 0 {
                lemma_freed_by_cons(es, pos, t, m);
                assert(!caps_hold(caps, bytes - b - freed_by(es, t, m - 1), es.len() - (removed + 1) - (m - 1)));
            } else {
                assert(freed_by(es, d, 0) == 0);
            }
        }
    }
}

/// What a whole eviction pass deletes, when every deletion succeeds: the
/// shortest run, in the order considered (oldest use first), of the
/// unprotected entries after which both caps hold, or all of them when no run
/// is enough. Each deleted entry is unprotected, none is skipped over, and
/// before each deletion the caps did not hold.
pub proof fn lemma_pass_deletes(es: Seq<CacheEntry>, caps: Option<Caps>, in_use: Seq<String>, now: u64)
    ensures
        ({
            let d = pass_deletes(es, caps, in_use, now);
            &&& forall|i: int| 0 <= i < d.len() ==> 0 <= #[trigger] d[i] < es.len() && !protected(es[d[i]], caps, in_use, now)
            &&& forall|i: int, j: int| 0 <= i < j < d.len() ==> d[i] < d[j]
            &&& forall|u: int, k: int|
                0 <= k < d.len() && 0 <= u < #[trigger] d[k] && !protected(#[trigger] es[u], caps, in_use, now) ==> d.contains(u)
            &&& (caps_hold(caps, total(es) - freed_by(es, d, d.len() as int), es.len() - d.len())
                || forall|u: int| 0 <= u < es.len() && !protected(#[trigger] es[u], caps, in_use, now) ==> d.contains(u))
            &&& forall|m: int| 0 <= m < d.len() ==> !caps_hold(caps, total(es) - #[trigger] freed_by(es, d, m), es.len() - m)
        }),
{
    lemma_deleted_from(es, caps, in_use, now, 0, total(es) as int, 0);
}

/// A purge deletes exactly the entries not held by a path in use, whatever
/// their age and the caps.
pub proof fn lemma_purge_deletes_free(es: Seq<CacheEntry>, in_use: Seq<String>, now: u64)
    ensures
        forall|u: int|
            0 <= u < es.len() ==> (pass_deletes(es, None, in_use, now).contains(u) <==> !is_blocked(
                #[trigger] es[u].path@,
                es[u].is_dir,
                in_use,
            )),
{
    let d = pass_deletes(es, None, in_use, now);
    lemma_deleted_from(es, None, in_use, now, 0, total(es) as int, 0);
    assert forall|u: int| 0 <= u < es.len() implies (d.contains(u) <==> !is_blocked(
        #[trigger] es[u].path@,
        es[u].is_dir,
        in_use,
    )) by {
        if d.contains(u) {
            let i = choose|i: int| 0 <= i < d.len() && d[i] == u;
            assert(!protected(es[d[i]], None, in_use, now));
        }
        if !is_blocked(es[u].path@, es[u].is_dir, in_use) {
            assert(!protected(es[u], None, in_use, now));
        }
    }
}

proof fn lemma_freed_by_prefix(es: Seq<CacheEntry>, d: Seq<int>, x: int, m: int)
    requires
        0 <= m <= d.len(),
    ensures
        freed_by(es, d.push(x), m) == freed_by(es, d, m),
    decreases m,
{
    if m > 0 {
        lemma_freed_by_prefix(es, d, x, m - 1);
        assert(d.push(x)[m - 1] == d[m - 1]);
    }
}

proof fn lemma_freed_by_push(es: Seq<CacheEntry>, d: Seq<int>, x: int)
    ensures
        freed_by(es, d.push(x), d.len() as int + 1) == freed_by(es, d, d.len() as int) + es[x].bytes,
{
    lemma_freed_by_prefix(es, d, x, d.len() as int);
    assert(d.push(x)[d.len() as int] == x);
}

/// A pass over entries that are already within the caps deletes nothing.
pub proof fn lemma_pass_within_caps(es: Seq<CacheEntry>, caps: Option<Caps>, in_use: Seq<String>, now: u64)
    requires
        caps_hold(caps, total(es) as int, es.len() as int),
    ensures
        pass_deletes(es, caps, in_use, now).len() == 0,
{
}

/// One pass over a cache directory's entries, deciding which to delete.
///
/// `next_removal` names the next entry to delete; the caller deletes it and
/// reports the outcome with `settle`. Entries are considered once each, in
/// order; held entries are skipped, and so (when sweeping against caps) are
/// entries inside the exemption window; against caps the pass stops as soon as
/// both caps hold.
pub struct Sweeper {
    entries: Vec<CacheEntry>,
    caps: Option<Caps>,
    in_use: Vec<String>,
    now: u64,
    pos: usize,
    pending: bool,
    bytes: u64,
    removed: usize,
    freed: u64,
    /// Indices deleted so far, in order.
    done: Ghost<Seq<int>>,
    /// Whether every deletion so far succeeded.
    clean: Ghost<bool>,
}

impl Sweeper {
    /// The entries, in the order the pass considers them.
    pub closed spec fn entries(&self) -> Seq<CacheEntry> {
        self.entries@
    }

    /// The caps the pass sweeps against (`None` for a purge).
    pub closed spec fn caps(&self) -> Option<Caps> {
        self.caps
    }

    pub closed spec fn in_use(&self) -> Seq<String> {
        self.in_use@
    }

    pub closed spec fn now(&self) -> u64 {
        self.now
    }

    /// Index of the next entry to consider (or of the entry awaiting `settle`).
    pub closed spec fn pos(&self) -> nat {
        self.pos as nat
    }

    /// Whether an entry was named for deletion and awaits `settle`.
    pub closed spec fn pending(&self) -> bool {
        self.pending
    }

    pub closed spec fn bytes(&self) -> u64 {
        self.bytes
    }

    pub closed spec fn removed(&self) -> nat {
        self.removed as nat
    }

    pub closed spec fn freed(&self) -> u64 {
        self.freed
    }

    /// Indices of the entries deleted so far, in the order deleted.
    pub closed spec fn deleted(&self) -> Seq<int> {
        self.done@
    }

    /// Whether every deletion so far succeeded.
    pub closed spec fn clean(&self) -> bool {
        self.clean@
    }

    /// Internal consistency: the counters add up and the entries not yet
    /// considered are all still counted.
    pub closed spec fn wf(&self) -> bool {
        &&& self.pos <= self.entries@.len()
        &&& self.removed <= self.pos
        &&& self.pending ==> self.pos < self.entries@.len()
        &&& self.bytes + self.freed == total(self.entries@)
        &&& self.bytes >= total(self.entries@.skip(self.pos as int))
        &&& total(self.entries@) <= u64::MAX
        &&& self.pending ==> !caps_hold(self.caps, self.bytes as int, self.entries@.len() - self.removed)
            && !protected(self.entries@[self.pos as int], self.caps, self.in_use@, self.now)
        &&& self.removed == self.done@.len()
        &&& self.freed == freed_by(self.entries@, self.done@, self.done@.len() as int)
        &&& self.clean@ ==> self.done@ + self.planned() == pass_deletes(self.entries@, self.caps, self.in_use@, self.now)
    }

    /// What the rest of the pass deletes, if every deletion from here on
    /// succeeds (the entry awaiting `settle` first).
    pub open spec fn planned(&self) -> Seq<int> {
        deleted_from(
            self.entries(),
            self.caps(),
            self.in_use(),
            self.now(),
            self.pos() as int,
            self.bytes() as int,
            self.removed() as int,
        )
    }

    /// Whether the pass passes over entry `e` without deleting it.
    pub open spec fn skips(&self, e: CacheEntry) -> bool {
        is_blocked(e.path@, e.is_dir, self.in_use()) || match self.caps() {
            Some(c) => age(e, self.now()) < c.min_age,
            None => false,
        }
    }

    /// Whether the caps hold (never, for a purge).
    pub open spec fn within_caps(&self) -> bool {
        match self.caps() {
            Some(c) => self.bytes() <= c.max_bytes && self.entries().len() - self.removed()
                <= c.max_entries,
            None => false,
        }
    }

    /// Index of the first entry at or after `from` that the pass does not skip.
    pub open spec fn next_candidate(&self, from: int) -> Option<int> {
        if exists|k: int| from <= k < self.entries().len() && !self.skips(self.entries()[k]) {
            Some(
                choose|k: int|
                    from <= k < self.entries().len() && !self.skips(self.entries()[k]) && forall|
                        j: int,
                    |
                        from <= j < k ==> #[trigger] self.skips(self.entries()[j]),
            )
        } else {
            None
        }
    }

    /// Whether this sweeper and `other` sweep the same entries with the same settings.
    pub open spec fn same_pass(&self, other: &Sweeper) -> bool {
        &&& self.entries() == other.entries()
        &&& self.caps() == other.caps()
        &&& self.in_use() == other.in_use()
        &&& self.now() == other.now()
    }

    /// Index of the entry named by the last `next_removal`.
    pub fn current(&self) -> (k: usize)
        ensures
            k == self.pos(),
    {
        self.pos
    }

    /// The entry at index `k`.
    pub fn entry(&self, k: usize) -> (e: &CacheEntry)
        requires
            k < self.entries().len(),
        ensures
            *e == self.entries()[k as int],
    {
        &self.entries[k]
    }

    /// Names the next entry to delete, or `None` when the pass is over (the caps
    /// hold, or no entry is left that may be deleted).
    pub fn next_removal(&mut self) -> (r: Option<usize>)
        requires
            old(self).wf(),
            !old(self).pending(),
        ensures
            final(self).wf(),
            final(self).same_pass(old(self)),
            final(self).bytes() == old(self).bytes(),
            final(self).removed() == old(self).removed(),
            final(self).freed() == old(self).freed(),
            old(self).within_caps() ==> r is None,
            match r {
                Some(k) => {
                    &&& !old(self).within_caps()
                    &&& old(self).next_candidate(old(self).pos() as int) == Some(k as int)
                    &&& final(self).pos() == k
                    &&& final(self).pending()
                    &&& !old(self).skips(old(self).entries()[k as int])
                },
                None => {
                    &&& (old(self).within_caps() || old(self).next_candidate(old(self).pos() as int)
                        is None)
                    &&& final(self).pos() == old(self).entries().len()
                    &&& !final(self).pending()
                },
            },
            match r {
                Some(k) => final(self).planned() == old(self).planned() && old(self).planned().len() > 0
                    && old(self).planned()[0] == k,
                None => old(self).planned().len() == 0 && final(self).planned().len() == 0,
            },
            final(self).deleted() == old(self).deleted(),
            final(self).clean() == old(self).clean(),
    {
        let n = self.entries.len();
        let under = match self.caps {
            Some(c) => self.bytes <= c.max_bytes && n - self.removed <= c.max_entries,
            None => false,
        };
        if under {
            proof {
                lemma_total_skip_mono(self.entries@, self.pos as int, n as int);
            }
            self.pos = n;
            proof {
                assert(self.done@ + self.planned() =~= old(self).done@ + old(self).planned());
            }
            return None;
        }
        let ghost s0 = *self;
        let mut k: usize = self.pos;
        while k < n
            invariant
                s0.wf(),
                n == s0.entries@.len(),
                s0.pos <= k <= n,
                self.entries@ == s0.entries@,
                self.caps == s0.caps,
                self.in_use@ == s0.in_use@,
                self.now == s0.now,
                self.bytes == s0.bytes,
                self.removed == s0.removed,
                self.freed == s0.freed,
                self.pos == s0.pos,
                self.pending == s0.pending,
                self.done == s0.done,
                self.clean == s0.clean,
                !s0.pending,
                s0 == *old(self),
                !s0.within_caps(),
                forall|j: int| s0.pos <= j < k ==> #[trigger] s0.skips(s0.entries()[j]),
            decreases n - k,
        {
            let e = &self.entries[k];
            let held = blocked(e.path.as_str(), e.is_dir, &self.in_use);
            let fresh = match self.caps {
                Some(c) => {
                    let a = if self.now >= e.used {
                        self.now - e.used
                    } else {
                        0
                    };
                    a < c.min_age
                },
                None => false,
            };
            if !held && !fresh {
                proof {
                    assert(!s0.skips(s0.entries()[k as int]));
                    let w = choose|w: int|
                        s0.pos <= w < n && !s0.skips(s0.entries()[w]) && forall|j: int|
                            s0.pos <= j < w ==> #[trigger] s0.skips(s0.entries()[j]);
                    assert(exists|w: int|
                        s0.pos <= w < n && !s0.skips(s0.entries()[w]) && forall|j: int|
                            s0.pos <= j < w ==> #[trigger] s0.skips(s0.entries()[j]));
                    if w < k {
                        assert(s0.skips(s0.entries()[w]));
                    } else if w > k {
                        assert(s0.skips(s0.entries()[k as int]));
                    }
                    lemma_total_skip_mono(self.entries@, s0.pos as int, k as int);
                    assert forall|j: int| s0.pos <= j < k implies #[trigger] protected(
                        s0.entries@[j],
                        s0.caps,
                        s0.in_use@,
                        s0.now,
                    ) by {
                        assert(s0.skips(s0.entries()[j]));
                    }
                    lemma_skip_run(s0.entries@, s0.caps, s0.in_use@, s0.now, s0.pos as int, k as int, s0.bytes as int, s0.removed as int);
                }
                self.pos = k;
                self.pending = true;
                return Some(k);
            }
            k += 1;
        }
        proof {
            lemma_total_skip_mono(self.entries@, s0.pos as int, n as int);
            assert forall|j: int| s0.pos <= j < n implies #[trigger] protected(
                s0.entries@[j],
                s0.caps,
                s0.in_use@,
                s0.now,
            ) by {
                assert(s0.skips(s0.entries()[j]));
            }
            lemma_skip_run(s0.entries@, s0.caps, s0.in_use@, s0.now, s0.pos as int, n as int, s0.bytes as int, s0.removed as int);
        }
        self.pos = n;
        proof {
            assert(self.done@ + self.planned() =~= s0.done@ + s0.planned());
        }
        None
    }

    /// Reports whether deleting the named entry worked; on success its bytes
    /// count as freed.
    pub fn settle(&mut self, deleted: bool)
        requires
            old(self).wf(),
            old(self).pending(),
        ensures
            final(self).wf(),
            final(self).same_pass(old(self)),
            !final(self).pending(),
            final(self).pos() == old(self).pos() + 1,
            deleted ==> final(self).bytes() == old(self).bytes() - old(self).entries()[old(
                self,
            ).pos() as int].bytes && final(self).freed() == old(self).freed() + old(
                self,
            ).entries()[old(self).pos() as int].bytes && final(self).removed() == old(
                self,
            ).removed() + 1,
            !deleted ==> final(self).bytes() == old(self).bytes() && final(self).freed() == old(
                self,
            ).freed() && final(self).removed() == old(self).removed(),
            old(self).planned().len() > 0 && old(self).planned()[0] == old(self).pos(),
            deleted ==> final(self).planned() == old(self).planned().drop_first(),
            deleted ==> final(self).deleted() == old(self).deleted().push(old(self).pos() as int),
            deleted ==> final(self).clean() == old(self).clean(),
            !deleted ==> final(self).deleted() == old(self).deleted() && !final(self).clean(),
    {
        proof {
            lemma_total_skip(self.entries@, self.pos as int);
            lemma_total_skip_mono(self.entries@, 0, self.pos as int);
            assert(self.entries@.skip(0) == self.entries@);
        }
        let n = self.entries.len();
        let b = self.entries[self.pos].bytes;
        let ghost old_planned = self.planned();
        let ghost old_done = self.done@;
        if deleted {
            self.bytes = self.bytes - b;
            self.removed = self.removed + 1;
            self.freed = self.freed + b;
            proof {
                lemma_freed_by_push(self.entries@, old_done, self.pos as int);
                self.done = Ghost(old_done.push(self.pos as int));
            }
        } else {
            proof {
                self.clean = Ghost(false);
            }
        }
        self.pos = self.pos + 1;
        self.pending = false;
        proof {
            if deleted && self.clean@ {
                assert(old_planned == seq![old(self).pos as int] + self.planned());
                assert(self.done@ + self.planned() =~= old_done + old_planned);
            }
        }
    }

    /// The sweep's outcome so far.
    pub fn sweep(&self) -> (s: Sweep)
        requires
            self.wf(),
        ensures
            s.bytes == self.bytes(),
            s.entries == self.entries().len() - self.removed(),
            s.removed == self.removed(),
            s.freed == self.freed(),
            s.bytes + s.freed == total(self.entries()),
            s.entries + s.removed == self.entries().len(),
    {
        Sweep {
            bytes: self.bytes,
            entries: self.entries.len() - self.removed,
            removed: self.removed,
            freed: self.freed,
        }
    }
}

/// A whole sweep, once `next_removal` has answered `None` and every deletion
/// succeeded: it deleted exactly what the pass plans (`pass_deletes`, see
/// `lemma_pass_deletes` and `lemma_purge_deletes_free`), and its totals are
/// those of that set: as many removed as deleted, their bytes freed, and the
/// rest of the bytes and entries left.
pub proof fn lemma_run_totals(s: &Sweeper)
    requires
        s.wf(),
        s.clean(),
        s.planned().len() == 0,
    ensures
        s.deleted() == pass_deletes(s.entries(), s.caps(), s.in_use(), s.now()),
        s.removed() == s.deleted().len(),
        s.freed() == freed_by(s.entries(), s.deleted(), s.deleted().len() as int),
        s.bytes() + s.freed() == total(s.entries()),
        s.entries().len() - s.removed() >= 0,
{
    assert(s.deleted() + s.planned() =~= s.deleted());
}

#[verifier::spinoff_prover]
fn total_bytes(entries: &Vec<CacheEntry>) -> (t: u64)
    requires
        total(entries@) <= u64::MAX,
    ensures
        t == total(entries@),
{
    let n = entries.len();
    let mut i: usize = n;
    let mut t: u64 = 0;
    while i > 0
        invariant
            0 <= i <= n == entries@.len(),
            t == total(entries@.skip(i as int)),
            total(entries@) <= u64::MAX,
        decreases i,
    {
        i -= 1;
        proof {
            lemma_total_skip(entries@, i as int);
            lemma_total_skip_mono(entries@, 0, i as int);
            assert(entries@.skip(0) == entries@);
        }
        t = t + entries[i].bytes;
    }
    assert(entries@.skip(0) == entries@);
    t
}

/// Starts an eviction pass over a cache directory's entries: oldest first,
/// deleting until both caps hold, skipping entries in use and entries inside
/// the exemption window.
pub fn evict_lru(entries: Vec<CacheEntry>, caps: &Caps, in_use: Vec<String>, now: u64) -> (s: Sweeper)
    requires
        total(entries@) <= u64::MAX,
    ensures
        s.wf(),
        s.entries() == by_use(entries@),
        s.caps() == Some(*caps),
        s.in_use() == in_use@,
        s.now() == now,
        s.pos() == 0,
        !s.pending(),
        s.bytes() == total(entries@),
        s.removed() == 0,
        s.freed() == 0,
        s.planned() == pass_deletes(by_use(entries@), Some(*caps), in_use@, now),
{
    proof {
        lemma_by_use_total(entries@);
    }
    let sorted = order_by_use(entries);
    let bytes = total_bytes(&sorted);
    assert(sorted@.skip(0) == sorted@);
    Sweeper {
        entries: sorted,
        caps: Some(*caps),
        in_use,
        now,
        pos: 0,
        pending: false,
        bytes,
        removed: 0,
        freed: 0,
        done: Ghost(Seq::empty()),
        clean: Ghost(true),
    }
}

/// Starts a purge of a cache directory (the user clearing it): every entry not
/// in use is deleted, regardless of caps and age.
pub fn purge(entries: Vec<CacheEntry>, in_use: Vec<String>) -> (s: Sweeper)
    requires
        total(entries@) <= u64::MAX,
    ensures
        s.wf(),
        s.entries() == entries@,
        s.caps() is None,
        s.in_use() == in_use@,
        s.pos() == 0,
        !s.pending(),
        s.bytes() == total(entries@),
        s.removed() == 0,
        s.freed() == 0,
        s.planned() == pass_deletes(entries@, None, in_use@, 0),
{
    let bytes = total_bytes(&entries);
    assert(entries@.skip(0) == entries@);
    Sweeper {
        entries,
        caps: None,
        in_use,
        now: 0,
        pos: 0,
        pending: false,
        bytes,
        removed: 0,
        freed: 0,
        done: Ghost(Seq::empty()),
        clean: Ghost(true),
    }
}

} // verus!
