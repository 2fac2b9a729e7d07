//! Rules of the transfer worker: where downloads and cache files go, how
//! retries back off, how name clashes are resolved, and when a cache sweep is due.

use vstd::prelude::*;

use crate::filetypes::last_dot;
use crate::format::{safe_file_name, safe_name};
use crate::paths::{
    components, lemma_push_plain, parent_of, path_parent, path_starts_with, plain_component, push_path,
    pushed,
};
use crate::format::{file_name_chars, path_file_name};
use crate::text::{chars_of, dec, push_chars, push_dec, push_str, slice_chars, str_eq, string_from_chars};

verus! {

/// A relative drive path component made safe for the local file system:
/// its cleaned file name, or `download` when nothing usable is left.
pub open spec fn local_component(c: Seq<char>) -> Seq<char> {
    match safe_name(c) {
        Some(n) => n,
        None => "download"@,
    }
}

/// `base` with the cleaned components of `rel` appended one by one.
pub open spec fn joined(base: Seq<char>, rel: Seq<Seq<char>>) -> Seq<char>
    decreases rel.len(),
{
    if rel.len() == 0 {
        base
    } else {
        pushed(joined(base, rel.drop_last()), local_component(rel.last()))
    }
}

/// The views of a list of strings.
pub open spec fn string_views(v: Seq<String>) -> Seq<Seq<char>> {
    v.map_values(|s: String| s@)
}

/// Joins drive directory components onto a local base directory, cleaning each
/// component first (only its last path segment is kept; `.`, `..` and empty
/// names become `download`), so no component can climb out of `base`.
pub fn join_local_path(base: &str, rel: &[String]) -> (p: String)
    ensures
        p@ == joined(base@, string_views(rel@)),
{
    let mut p = chars_of(base);
    let mut i: usize = 0;
    while i < rel.len()
        invariant
            0 <= i <= rel@.len(),
            p@ == joined(base@, string_views(rel@).take(i as int)),
        decreases rel@.len() - i,
    {
        let c = match safe_file_name(rel[i].as_str()) {
            Some(n) => n,
            None => "download".to_owned(),
        };
        push_path(&mut p, &chars_of(c.as_str()));
        proof {
            let t = string_views(rel@).take(i + 1);
            assert(t.drop_last() == string_views(rel@).take(i as int));
            assert(t.last() == rel@[i as int]@);
        }
        i += 1;
    }
    assert(string_views(rel@).take(rel@.len() as int) == string_views(rel@));
    string_from_chars(&p)
}

/// Every cleaned component is a plain name.
pub proof fn lemma_local_component_plain(c: Seq<char>)
    ensures
        plain_component(local_component(c)),
{
    crate::format::lemma_safe_name_plain(c);
    reveal_strlit("download");
    reveal_strlit(".");
    reveal_strlit("..");
    if safe_name(c) is None {
        let d = "download"@;
        assert(d.len() == 8);
        assert(d != "."@);
        assert(d != ".."@);
    }
}

/// A local download path never leaves its base directory: its components
/// are the base's followed by one plain name per drive component (no `..`,
/// no `.`, no separators), so the base is always a prefix of it.
pub proof fn lemma_join_stays_inside(base: Seq<char>, rel: Seq<Seq<char>>)
    ensures
        components(joined(base, rel)) == components(base) + rel.map_values(|c: Seq<char>| local_component(c)),
        forall|i: int| 0 <= i < rel.len() ==> plain_component(#[trigger] local_component(rel[i])),
        path_starts_with(joined(base, rel), base),
    decreases rel.len(),
{
    let m = rel.map_values(|c: Seq<char>| local_component(c));
    if rel.len() > 0 {
        let front = rel.drop_last();
        lemma_join_stays_inside(base, front);
        lemma_local_component_plain(rel.last());
        lemma_push_plain(joined(base, front), local_component(rel.last()));
        assert(m == front.map_values(|c: Seq<char>| local_component(c)).push(local_component(rel.last())));
        assert forall|i: int| 0 <= i < rel.len() implies plain_component(#[trigger] local_component(rel[i])) by {
            if i < rel.len() - 1 {
                assert(rel[i] == front[i]);
            }
        }
    } else {
        assert(m.len() == 0);
        assert(components(base) + m == components(base));
    }
    let cb = components(base);
    let cj = components(joined(base, rel));
    assert(cj.take(cb.len() as int) == cb);
}

/// Delay before retry `attempt` (counted from 0), in milliseconds: 500 ms,
/// doubling each time, at most 8 s.
pub open spec fn backoff_ms(attempt: u32) -> u64 {
    if attempt == 0 {
        500
    } else if attempt == 1 {
        1000
    } else if attempt == 2 {
        2000
    } else if attempt == 3 {
        4000
    } else {
        8000
    }
}

/// Delay before retry `attempt` of a download, in milliseconds.
pub fn download_backoff(attempt: u32) -> (ms: u64)
    ensures
        ms == backoff_ms(attempt),
{
    let shift: u64 = if attempt < 4 {
        attempt as u64
    } else {
        4
    };
    let factor: u64 = if shift == 0 {
        1
    } else if shift == 1 {
        2
    } else if shift == 2 {
        4
    } else if shift == 3 {
        8
    } else {
        16
    };
    let ms = 500 * factor;
    if ms < 8000 {
        ms
    } else {
        8000
    }
}

/// What a download does after attempt number `attempt` (counted from 1) failed:
/// give up (`None`) when it was cancelled, the attempts are used up or the
/// error is not transient; otherwise wait the returned milliseconds and retry.
pub fn retry_delay(cancelled: bool, attempt: u32, max_attempts: u32, transient: bool) -> (r: Option<u64>)
    requires
        attempt >= 1,
    ensures
        r == if cancelled || attempt >= max_attempts || !transient {
            None
        } else {
            Some(backoff_ms((attempt - 1) as u32))
        },
{
    if cancelled || attempt >= max_attempts || !transient {
        None
    } else {
        Some(download_backoff(attempt - 1))
    }
}

/// The name to use for the `n`-th clash of `base`: `stem (n).ext` when the
/// name has a non-empty stem and extension, else `base (n)`; `n == 0` keeps it.
pub open spec fn numbered_name(base: Seq<char>, n: nat) -> Seq<char> {
    let k = last_dot(base);
    if n == 0 {
        base
    } else if k > 0 && k + 1 < base.len() {
        base.take(k) + seq![' ', '('] + dec(n) + seq![')', '.'] + base.skip(k + 1)
    } else {
        base + seq![' ', '('] + dec(n) + seq![')']
    }
}

/// Name for the `n`-th duplicate of `base` ("name (n).ext").
pub fn unique_name(base: &str, n: u32) -> (r: String)
    ensures
        r@ == numbered_name(base@, n as nat),
{
    if n == 0 {
        return base.to_owned();
    }
    let cs = chars_of(base);
    let mut k: usize = cs.len();
    while k > 0 && cs[k - 1] != '.'
        invariant
            0 <= k <= cs@.len(),
            cs@ == base@,
            forall|j: int| k <= j < cs@.len() ==> cs@[j] != '.',
        decreases k,
    {
        k -= 1;
    }
    proof {
        crate::filetypes::lemma_last_dot(cs@, k - 1);
    }
    let mut out: Vec<char> = Vec::new();
    if k > 1 && k < cs.len() {
        push_chars(&mut out, &slice_chars(&cs, 0, k - 1));
        out.push(' ');
        out.push('(');
        push_dec(&mut out, n as u64);
        out.push(')');
        out.push('.');
        push_chars(&mut out, &slice_chars(&cs, k, cs.len()));
        proof {
            assert(cs@.subrange(0, k - 1) == base@.take(k - 1));
            assert(cs@.subrange(k as int, cs@.len() as int) == base@.skip(k as int));
            assert(out@ == base@.take(k - 1) + seq![' ', '('] + dec(n as nat) + seq![')', '.']
                + base@.skip(k as int));
        }
    } else {
        push_chars(&mut out, &cs);
        out.push(' ');
        out.push('(');
        push_dec(&mut out, n as u64);
        out.push(')');
        proof {
            assert(out@ == base@ + seq![' ', '('] + dec(n as nat) + seq![')']);
        }
    }
    string_from_chars(&out)
}

/// The key under which a target file name is reserved: directory, a NUL, name.
pub fn reserve_key(dir: &str, name: &str) -> (k: String)
    ensures
        k@ == dir@ + seq!['\0'] + name@,
{
    let mut out = chars_of(dir);
    out.push('\0');
    push_str(&mut out, name);
    string_from_chars(&out)
}

/// The reservation key of a target path: its parent directory and its file
/// name (each empty when the path has none).
pub fn reserve_key_of(dest: &str) -> (k: String)
    ensures
        k@ == (match parent_of(dest@) {
            Some(p) => p,
            None => Seq::empty(),
        }) + seq!['\0'] + (match path_file_name(dest@) {
            Some(n) => n,
            None => Seq::empty(),
        }),
{
    let name = match file_name_chars(&chars_of(dest)) {
        Some(n) => string_from_chars(&n),
        None => String::new(),
    };
    let dir = match path_parent(dest) {
        Some(p) => p,
        None => String::new(),
    };
    reserve_key(dir.as_str(), name.as_str())
}

/// Whether an offline-task phase still changes by itself (pending or running).
pub fn is_active_phase(phase: &str) -> (b: bool)
    ensures
        b == (phase@ == "PHASE_TYPE_PENDING"@ || phase@ == "PHASE_TYPE_RUNNING"@),
{
    str_eq(phase, "PHASE_TYPE_PENDING") || str_eq(phase, "PHASE_TYPE_RUNNING")
}

/// Whether `c` may stay in a cache directory or file name made from a file id.
pub open spec fn id_char(c: char) -> bool {
    ('a' <= c <= 'z') || ('A' <= c <= 'Z') || ('0' <= c <= '9') || c == '-' || c == '_'
}

/// A file id reduced to ASCII letters, digits, `-` and `_`; `unknown` when nothing is left.
pub open spec fn id_dir(file_id: Seq<char>) -> Seq<char> {
    let kept = file_id.filter(|c: char| id_char(c));
    if kept.len() == 0 {
        "unknown"@
    } else {
        kept
    }
}

fn clean_id(file_id: &str) -> (r: Vec<char>)
    ensures
        r@ == id_dir(file_id@),
{
    let cs = chars_of(file_id);
    let mut kept: Vec<char> = Vec::new();
    let mut i: usize = 0;
    while i < cs.len()
        invariant
            0 <= i <= cs@.len(),
            cs@ == file_id@,
            kept@ == cs@.take(i as int).filter(|c: char| id_char(c)),
        decreases cs@.len() - i,
    {
        let c = cs[i];
        proof {
            assert(cs@.take(i + 1).drop_last() == cs@.take(i as int));
            assert(cs@.take(i + 1).last() == c);
            cs@.take(i as int).lemma_filter_push(c, |c: char| id_char(c));
            assert(cs@.take(i as int).push(c) == cs@.take(i + 1));
        }
        if ('a' <= c && c <= 'z') || ('A' <= c && c <= 'Z') || ('0' <= c && c <= '9') || c == '-'
            || c == '_' {
            kept.push(c);
        }
        i += 1;
    }
    assert(cs@.take(cs@.len() as int) == cs@);
    if kept.len() == 0 {
        chars_of("unknown")
    } else {
        kept
    }
}

/// The local cache path of a previewed file: `<root>/<file id>/<file name>`,
/// the id cleaned to safe characters and the name to a safe file name
/// (`preview` when none is left).
pub fn preview_cache_path(root: &str, file_id: &str, name: &str) -> (p: String)
    ensures
        p@ == pushed(
            pushed(root@, id_dir(file_id@)),
            match safe_name(name@) {
                Some(n) => n,
                None => "preview"@,
            },
        ),
{
    let dir = clean_id(file_id);
    let safe = match safe_file_name(name) {
        Some(n) => n,
        None => "preview".to_owned(),
    };
    let mut p = chars_of(root);
    push_path(&mut p, &dir);
    push_path(&mut p, &chars_of(safe.as_str()));
    string_from_chars(&p)
}

/// The local cache path of a thumbnail: `<root>/<file id>.jpg`, the id cleaned
/// to safe characters.
pub fn thumbnail_cache_path(root: &str, file_id: &str) -> (p: String)
    ensures
        p@ == pushed(root@, id_dir(file_id@) + ".jpg"@),
{
    let mut name = clean_id(file_id);
    push_str(&mut name, ".jpg");
    let mut p = chars_of(root);
    push_path(&mut p, &name);
    string_from_chars(&p)
}

/// A sweep of the disk caches is due after this many new bytes...
pub const CACHE_SWEEP_MIN_NEW_BYTES: u64 = 8 * 1024 * 1024;
/// ...or after this many milliseconds since the last one.
pub const CACHE_SWEEP_MIN_INTERVAL_MS: u64 = 60_000;

/// Throttle of cache sweeps: writes to the caches are added up, and a sweep
/// is due once enough bytes were written or enough time passed since the last.
#[derive(Clone, Copy, Debug)]
pub struct CacheGate {
    /// When the last sweep was started (milliseconds on a monotonic clock).
    pub last: u64,
    /// Bytes written to the caches since then (saturating).
    pub new_bytes: u64,
}

impl CacheGate {
    /// A gate whose last sweep was at `now`.
    pub fn new(now: u64) -> (g: CacheGate)
        ensures
            g.last == now,
            g.new_bytes == 0,
    {
        CacheGate { last: now, new_bytes: 0 }
    }

    /// Records a write of `bytes` at `now` and says whether a sweep is due;
    /// when it is, counting begins again at `now`.
    pub fn note_write(&mut self, bytes: u64, now: u64) -> (due: bool)
        ensures
            ({
                let added = if old(self).new_bytes + bytes > u64::MAX {
                    u64::MAX
                } else {
                    (old(self).new_bytes + bytes) as u64
                };
                let elapsed = if now >= old(self).last {
                    now - old(self).last
                } else {
                    0
                };
                &&& due == !(added < CACHE_SWEEP_MIN_NEW_BYTES && elapsed < CACHE_SWEEP_MIN_INTERVAL_MS)
                &&& due ==> final(self).last == now && final(self).new_bytes == 0
                &&& !due ==> final(self).last == old(self).last && final(self).new_bytes == added
            }),
    {
        self.new_bytes = self.new_bytes.saturating_add(bytes);
        let elapsed = if now >= self.last {
            now - self.last
        } else {
            0
        };
        if self.new_bytes < CACHE_SWEEP_MIN_NEW_BYTES && elapsed < CACHE_SWEEP_MIN_INTERVAL_MS {
            false
        } else {
            self.last = now;
            self.new_bytes = 0;
            true
        }
    }
}

/// Transfer slots: how many transfers may run at once, and how many run.
#[derive(Debug, Clone, Copy)]
pub struct Slots {
    pub limit: usize,
    pub active: usize,
}

impl Slots {
    /// No transfer running yet, at most `limit` at once.
    pub fn new(limit: usize) -> (s: Slots)
        ensures
            s.limit == limit,
            s.active == 0,
    {
        Slots { limit, active: 0 }
    }

    /// Changes the limit (at least one); running transfers go on, and a
    /// lower limit only holds back those that start later.
    pub fn set_limit(&mut self, limit: usize)
        ensures
            final(self).limit == if limit > 1 {
                limit
            } else {
                1
            },
            final(self).active == old(self).active,
    {
        self.limit = if limit > 1 {
            limit
        } else {
            1
        };
    }

    /// Takes a slot when one is free.
    pub fn try_acquire(&mut self) -> (got: bool)
        ensures
            got == (old(self).active < old(self).limit),
            got ==> final(self).active == old(self).active + 1 && final(self).active <= final(self).limit,
            !got ==> final(self).active == old(self).active,
            final(self).limit == old(self).limit,
    {
        if self.active < self.limit {
            self.active = self.active + 1;
            true
        } else {
            false
        }
    }

    /// Gives a slot back.
    pub fn release(&mut self)
        requires
            old(self).active > 0,
        ensures
            final(self).active == old(self).active - 1,
            final(self).limit == old(self).limit,
    {
        self.active = self.active - 1;
    }
}

/// Whether path `p` is among `ps`.
pub open spec fn has_path(ps: Seq<String>, p: Seq<char>) -> bool {
    exists|k: int| 0 <= k < ps.len() && ps[k]@ == p
}

fn has_path_exec(ps: &[String], p: &str) -> (b: bool)
    ensures
        b == has_path(ps@, p@),
{
    let mut k: usize = 0;
    while k < ps.len()
        invariant
            0 <= k <= ps@.len(),
            forall|q: int| 0 <= q < k ==> (#[trigger] ps@[q])@ != p@,
        decreases ps@.len() - k,
    {
        if str_eq(ps[k].as_str(), p) {
            return true;
        }
        k += 1;
    }
    false
}

/// The cache paths being written or just handed to another program; the
/// cache sweep leaves them alone.
#[derive(Debug, Clone)]
pub struct InUse {
    pub paths: Vec<String>,
}

impl InUse {
    /// Nothing in use.
    pub fn new() -> (u: InUse)
        ensures
            u.paths@.len() == 0,
    {
        InUse { paths: Vec::new() }
    }

    /// Whether path `p` is in use.
    pub fn contains(&self, p: &str) -> (b: bool)
        ensures
            b == has_path(self.paths@, p@),
    {
        has_path_exec(&self.paths, p)
    }

    /// Marks the paths as in use (a path marked twice is listed once).
    pub fn mark(&mut self, paths: &[String])
        ensures
            forall|p: Seq<char>| #[trigger] has_path(final(self).paths@, p) <==> (has_path(old(self).paths@, p) || has_path(paths@, p)),
    {
        let mut k: usize = 0;
        while k < paths.len()
            invariant
                0 <= k <= paths@.len(),
                forall|p: Seq<char>|
                    #[trigger] has_path(self.paths@, p) <==> (has_path(old(self).paths@, p) || has_path(paths@.take(k as int), p)),
            decreases paths@.len() - k,
        {
            let ghost before = self.paths@;
            if !has_path_exec(&self.paths, paths[k].as_str()) {
                self.paths.push(paths[k].clone());
            }
            proof {
                let t0 = paths@.take(k as int);
                let t1 = paths@.take(k + 1);
                assert forall|p: Seq<char>| #[trigger] has_path(self.paths@, p) <==> (has_path(before, p) || paths@[k as int]@ == p) by {
                    if has_path(self.paths@, p) {
                        let w = choose|w: int| 0 <= w < self.paths@.len() && self.paths@[w]@ == p;
                        if w < before.len() {
                            assert(before[w] == self.paths@[w]);
                        }
                    }
                    if has_path(before, p) {
                        let w = choose|w: int| 0 <= w < before.len() && before[w]@ == p;
                        assert(self.paths@[w] == before[w]);
                    }
                    if paths@[k as int]@ == p && self.paths@.len() > before.len() {
                        assert(self.paths@[before.len() as int]@ == p);
                    }
                }
                assert forall|p: Seq<char>| has_path(t1, p) <==> (has_path(t0, p) || paths@[k as int]@ == p) by {
                    if has_path(t1, p) {
                        let w = choose|w: int| 0 <= w < t1.len() && t1[w]@ == p;
                        if w < k {
                            assert(t0[w] == t1[w]);
                        }
                    }
                    if has_path(t0, p) {
                        let w = choose|w: int| 0 <= w < t0.len() && t0[w]@ == p;
                        assert(t1[w] == t0[w]);
                    }
                    if paths@[k as int]@ == p {
                        assert(t1[k as int] == paths@[k as int]);
                    }
                }
            }
            k += 1;
        }
        proof {
            assert(paths@.take(paths@.len() as int) == paths@);
        }
    }

    /// The paths are no longer in use.
    pub fn release(&mut self, paths: &[String])
        ensures
            forall|p: Seq<char>| #[trigger] has_path(final(self).paths@, p) <==> (has_path(old(self).paths@, p) && !has_path(paths@, p)),
    {
        let ghost p0 = self.paths@;
        let mut rest: Vec<String> = Vec::new();
        std::mem::swap(&mut rest, &mut self.paths);
        let total = rest.len();
        let mut k: usize = 0;
        while rest.len() > 0
            invariant
                total == p0.len(),
                0 <= k <= p0.len(),
                rest@ == p0.subrange(k as int, p0.len() as int),
                forall|p: Seq<char>|
                    #[trigger] has_path(self.paths@, p) <==> (has_path(p0.take(k as int), p) && !has_path(paths@, p)),
            decreases rest@.len(),
        {
            let x = rest.remove(0);
            let ghost before = self.paths@;
            proof {
                assert(k < p0.len());
                assert(x == p0[k as int]);
            }
            let gone = has_path_exec(paths, x.as_str());
            if !gone {
                self.paths.push(x);
            }
            proof {
                let t0 = p0.take(k as int);
                let t1 = p0.take(k + 1);
                assert forall|p: Seq<char>| has_path(t1, p) <==> (has_path(t0, p) || p0[k as int]@ == p) by {
                    if has_path(t1, p) {
                        let w = choose|w: int| 0 <= w < t1.len() && t1[w]@ == p;
                        if w < k {
                            assert(t0[w] == t1[w]);
                        }
                    }
                    if has_path(t0, p) {
                        let w = choose|w: int| 0 <= w < t0.len() && t0[w]@ == p;
                        assert(t1[w] == t0[w]);
                    }
                    if p0[k as int]@ == p {
                        assert(t1[k as int] == p0[k as int]);
                    }
                }
                assert forall|p: Seq<char>| #[trigger] has_path(self.paths@, p) <==> (has_path(t1, p) && !has_path(paths@, p)) by {
                    if has_path(self.paths@, p) {
                        let w = choose|w: int| 0 <= w < self.paths@.len() && self.paths@[w]@ == p;
                        if w < before.len() {
                            assert(before[w] == self.paths@[w]);
                        }
                    }
                    if has_path(before, p) {
                        let w = choose|w: int| 0 <= w < before.len() && before[w]@ == p;
                        assert(self.paths@[w] == before[w]);
                    }
                    if !gone && p0[k as int]@ == p {
                        assert(self.paths@[before.len() as int]@ == p);
                    }
                }
            }
            k = k + 1;
            proof {
                assert(rest@ == p0.subrange(k as int, p0.len() as int));
            }
        }
        proof {
            assert(p0.take(k as int) == p0);
        }
    }
}

} // verus!
