//! Thumbnail texture cache: an LRU bounded by decoded bytes and by entry count,
//! where recently used entries get a grace period before they may be evicted.

use vstd::prelude::*;

use crate::text::chars_eq;

verus! {

/// Cap on decoded RGBA bytes.
pub const TEXTURE_CAP_BYTES: usize = 64 * 1024 * 1024;
/// Cap on the number of textures; applies together with the byte cap.
pub const TEXTURE_CAP_ENTRIES: usize = 512;
/// Grace period in milliseconds: a texture used this recently is not evicted.
pub const TEXTURE_GRACE_MS: u64 = 2000;

struct Entry<V> {
    id: String,
    value: V,
    bytes: usize,
    last_used: u64,
}

/// Model of one cached texture.
pub struct ThumbView<V> {
    pub id: Seq<char>,
    pub value: V,
    pub bytes: nat,
    pub last_used: u64,
}

/// Sum of the entries' byte counts.
pub open spec fn total_bytes<V>(s: Seq<ThumbView<V>>) -> nat
    decreases s.len(),
{
    if s.len() == 0 {
        0
    } else {
        total_bytes(s.drop_last()) + s.last().bytes
    }
}

/// Index of the entry with id `id`, if any.
pub open spec fn index_of<V>(s: Seq<ThumbView<V>>, id: Seq<char>) -> Option<int> {
    if exists|i: int| 0 <= i < s.len() && s[i].id == id {
        Some(choose|i: int| 0 <= i < s.len() && s[i].id == id)
    } else {
        None
    }
}

/// No two entries share an id.
pub open spec fn ids_unique<V>(s: Seq<ThumbView<V>>) -> bool {
    forall|i: int, j: int| 0 <= i < j < s.len() ==> s[i].id != s[j].id
}

/// Whether the cache is above either cap.
pub open spec fn over_caps<V>(s: Seq<ThumbView<V>>, cap_bytes: nat, cap_entries: nat) -> bool {
    total_bytes(s) > cap_bytes || s.len() > cap_entries
}

/// Time since the entry was last used; a use time after `now` counts as zero.
pub open spec fn idle_ms<V>(e: ThumbView<V>, now: u64) -> int {
    if now >= e.last_used {
        now - e.last_used
    } else {
        0
    }
}

/// Whether an entry's grace period has passed at `now`.
pub open spec fn expired<V>(e: ThumbView<V>, now: u64, grace: u64) -> bool {
    idle_ms(e, now) >= grace
}

/// Whether `i` is the first expired entry with the oldest use time.
pub open spec fn is_lru_victim<V>(s: Seq<ThumbView<V>>, i: int, now: u64, grace: u64) -> bool {
    &&& 0 <= i < s.len()
    &&& expired(s[i], now, grace)
    &&& forall|j: int| 0 <= j < s.len() && expired(#[trigger] s[j], now, grace) ==> s[i].last_used <= s[j].last_used
    &&& forall|j: int| 0 <= j < i && expired(#[trigger] s[j], now, grace) ==> s[j].last_used > s[i].last_used
}

pub open spec fn has_expired<V>(s: Seq<ThumbView<V>>, now: u64, grace: u64) -> bool {
    exists|i: int| 0 <= i < s.len() && expired(#[trigger] s[i], now, grace)
}

/// The eviction victim: the first expired entry among those least recently used.
pub open spec fn lru_victim<V>(s: Seq<ThumbView<V>>, now: u64, grace: u64) -> int {
    choose|i: int| is_lru_victim(s, i, now, grace)
}

/// Entries left after evicting least-recently-used expired entries one at a
/// time while the cache is over a cap.
pub open spec fn evicted<V>(
    s: Seq<ThumbView<V>>,
    cap_bytes: nat,
    cap_entries: nat,
    now: u64,
    grace: u64,
) -> Seq<ThumbView<V>>
    decreases s.len(),
{
    if over_caps(s, cap_bytes, cap_entries) && has_expired(s, now, grace) {
        let i = lru_victim(s, now, grace);
        if 0 <= i < s.len() {
            evicted(s.remove(i), cap_bytes, cap_entries, now, grace)
        } else {
            s
        }
    } else {
        s
    }
}

proof fn lemma_total_push<V>(s: Seq<ThumbView<V>>, e: ThumbView<V>)
    ensures
        total_bytes(s.push(e)) == total_bytes(s) + e.bytes,
{
    assert(s.push(e).drop_last() == s);
}

proof fn lemma_total_remove<V>(s: Seq<ThumbView<V>>, i: int)
    requires
        0 <= i < s.len(),
    ensures
        total_bytes(s) == total_bytes(s.remove(i)) + s[i].bytes,
    decreases s.len(),
{
    if i < s.len() - 1 {
        lemma_total_remove(s.drop_last(), i);
        assert(s.remove(i).drop_last() == s.drop_last().remove(i));
        assert(s.remove(i).last() == s.last());
    } else {
        assert(s.remove(i) == s.drop_last());
    }
}

proof fn lemma_total_update<V>(s: Seq<ThumbView<V>>, i: int, e: ThumbView<V>)
    requires
        0 <= i < s.len(),
    ensures
        total_bytes(s.update(i, e)) + s[i].bytes == total_bytes(s) + e.bytes,
{
    lemma_total_remove(s, i);
    lemma_total_remove(s.update(i, e), i);
    assert(s.update(i, e).remove(i) == s.remove(i));
}

proof fn lemma_victim_unique<V>(s: Seq<ThumbView<V>>, i: int, j: int, now: u64, grace: u64)
    requires
        is_lru_victim(s, i, now, grace),
        is_lru_victim(s, j, now, grace),
    ensures
        i == j,
{
    if i < j {
        assert(s[i].last_used > s[j].last_used);
    } else if j < i {
        assert(s[j].last_used > s[i].last_used);
    }
}

proof fn lemma_victim_exists<V>(s: Seq<ThumbView<V>>, now: u64, grace: u64)
    requires
        has_expired(s, now, grace),
    ensures
        is_lru_victim(s, lru_victim(s, now, grace), now, grace),
    decreases s.len(),
{
    let n = s.len() - 1;
    let p = s.drop_last();
    let w: int = if has_expired(p, now, grace) {
        lemma_victim_exists(p, now, grace);
        let pw = lru_victim(p, now, grace);
        assert(s[pw] == p[pw]);
        if expired(s[n], now, grace) && s[n].last_used < p[pw].last_used {
            n
        } else {
            pw
        }
    } else {
        assert forall|j: int| 0 <= j < n implies !expired(#[trigger] s[j], now, grace) by {
            assert(s[j] == p[j]);
        }
        n
    };
    assert forall|j: int| 0 <= j < s.len() && expired(#[trigger] s[j], now, grace) implies s[w].last_used
        <= s[j].last_used by {
        if j < n {
            assert(s[j] == p[j]);
        }
    }
    assert forall|j: int| 0 <= j < w && expired(#[trigger] s[j], now, grace) implies s[j].last_used
        > s[w].last_used by {
        assert(s[j] == p[j]);
    }
    assert(is_lru_victim(s, w, now, grace));
}

/// Every entry left by eviction was already cached.
pub proof fn lemma_evicted_within<V>(
    s: Seq<ThumbView<V>>,
    cap_bytes: nat,
    cap_entries: nat,
    now: u64,
    grace: u64,
    x: ThumbView<V>,
)
    requires
        evicted(s, cap_bytes, cap_entries, now, grace).contains(x),
    ensures
        s.contains(x),
    decreases s.len(),
{
    if over_caps(s, cap_bytes, cap_entries) && has_expired(s, now, grace) {
        let i = lru_victim(s, now, grace);
        if 0 <= i < s.len() {
            lemma_evicted_within(s.remove(i), cap_bytes, cap_entries, now, grace, x);
            let k = choose|k: int| 0 <= k < s.remove(i).len() && s.remove(i)[k] == x;
            if k < i {
                assert(s[k] == x);
            } else {
                assert(s[k + 1] == x);
            }
        }
    }
}

/// The texture cache's soft cap: eviction stops only once both caps hold or no
/// entry is past its grace period, never evicts an entry still within its grace
/// period, leaves a cache within its caps untouched, and evicts least recently
/// used entries first (every evicted entry was used no later than any entry past
/// its grace period that stays).
pub proof fn lemma_evict_soft_cap<V>(
    s: Seq<ThumbView<V>>,
    cap_bytes: nat,
    cap_entries: nat,
    now: u64,
    grace: u64,
)
    ensures
        !over_caps(evicted(s, cap_bytes, cap_entries, now, grace), cap_bytes, cap_entries)
            || !has_expired(evicted(s, cap_bytes, cap_entries, now, grace), now, grace),
        forall|i: int|
            0 <= i < s.len() && !expired(#[trigger] s[i], now, grace) ==> evicted(
                s,
                cap_bytes,
                cap_entries,
                now,
                grace,
            ).contains(s[i]),
        !over_caps(s, cap_bytes, cap_entries) ==> evicted(s, cap_bytes, cap_entries, now, grace) == s,
        forall|r: ThumbView<V>, k: ThumbView<V>|
            s.contains(r) && !evicted(s, cap_bytes, cap_entries, now, grace).contains(r)
                && #[trigger] evicted(s, cap_bytes, cap_entries, now, grace).contains(k) && expired(
                k,
                now,
                grace,
            ) ==> #[trigger] r.last_used <= k.last_used,
    decreases s.len(),
{
    let e = evicted(s, cap_bytes, cap_entries, now, grace);
    if over_caps(s, cap_bytes, cap_entries) && has_expired(s, now, grace) {
        lemma_victim_exists(s, now, grace);
        let v = lru_victim(s, now, grace);
        let t = s.remove(v);
        lemma_evict_soft_cap(t, cap_bytes, cap_entries, now, grace);
        assert(e == evicted(t, cap_bytes, cap_entries, now, grace));
        assert forall|i: int| 0 <= i < s.len() && !expired(#[trigger] s[i], now, grace) implies e.contains(
            s[i],
        ) by {
            if i < v {
                assert(t[i] == s[i]);
            } else {
                assert(i != v);
                assert(t[i - 1] == s[i]);
            }
        }
        assert forall|r: ThumbView<V>, k: ThumbView<V>|
            s.contains(r) && !e.contains(r) && #[trigger] e.contains(k) && expired(
                k,
                now,
                grace,
            ) implies #[trigger] r.last_used <= k.last_used by {
            lemma_evicted_within(t, cap_bytes, cap_entries, now, grace, k);
            let kk = choose|kk: int| 0 <= kk < t.len() && t[kk] == k;
            let ks = if kk < v { kk } else { kk + 1 };
            assert(s[ks] == k);
            let ri = choose|ri: int| 0 <= ri < s.len() && s[ri] == r;
            if ri == v {
                assert(expired(s[ks], now, grace));
            } else {
                let rt = if ri < v { ri } else { ri - 1 };
                assert(t[rt] == r);
                assert(t.contains(r));
            }
        }
    }
}

/// Eviction only shortens: it leaves the entries as they are, or fewer.
proof fn lemma_evicted_len<V>(s: Seq<ThumbView<V>>, cap_bytes: nat, cap_entries: nat, now: u64, grace: u64)
    ensures
        evicted(s, cap_bytes, cap_entries, now, grace) == s || evicted(s, cap_bytes, cap_entries, now, grace).len()
            < s.len(),
    decreases s.len(),
{
    if over_caps(s, cap_bytes, cap_entries) && has_expired(s, now, grace) {
        let i = lru_victim(s, now, grace);
        if 0 <= i < s.len() {
            lemma_evicted_len(s.remove(i), cap_bytes, cap_entries, now, grace);
        }
    }
}

/// Eviction stops as soon as both caps hold: when it removed anything, the
/// last entry it removed was needed, since putting it back would leave the
/// cache over a cap.
pub proof fn lemma_evict_stops_in_time<V>(
    s: Seq<ThumbView<V>>,
    cap_bytes: nat,
    cap_entries: nat,
    now: u64,
    grace: u64,
)
    requires
        ids_unique(s),
    ensures
        evicted(s, cap_bytes, cap_entries, now, grace).len() < s.len() ==> exists|x: ThumbView<V>|
            #![trigger s.contains(x)]
            s.contains(x) && !evicted(s, cap_bytes, cap_entries, now, grace).contains(x) && expired(x, now, grace)
                && (total_bytes(evicted(s, cap_bytes, cap_entries, now, grace)) + x.bytes > cap_bytes
                || evicted(s, cap_bytes, cap_entries, now, grace).len() + 1 > cap_entries),
    decreases s.len(),
{
    let e = evicted(s, cap_bytes, cap_entries, now, grace);
    if over_caps(s, cap_bytes, cap_entries) && has_expired(s, now, grace) {
        lemma_victim_exists(s, now, grace);
        let v = lru_victim(s, now, grace);
        let t = s.remove(v);
        assert(e == evicted(t, cap_bytes, cap_entries, now, grace));
        lemma_evicted_len(t, cap_bytes, cap_entries, now, grace);
        assert(ids_unique(t)) by {
            assert forall|a: int, b: int| 0 <= a < b < t.len() implies t[a].id != t[b].id by {
                let a2 = if a < v { a } else { a + 1 };
                let b2 = if b < v { b } else { b + 1 };
                assert(t[a] == s[a2]);
                assert(t[b] == s[b2]);
            }
        }
        if e.len() < t.len() {
            lemma_evict_stops_in_time(t, cap_bytes, cap_entries, now, grace);
            let x = choose|x: ThumbView<V>|
                #![trigger t.contains(x)]
                t.contains(x) && !e.contains(x) && expired(x, now, grace) && (total_bytes(e) + x.bytes > cap_bytes
                    || e.len() + 1 > cap_entries);
            let k = choose|k: int| 0 <= k < t.len() && t[k] == x;
            let ks = if k < v { k } else { k + 1 };
            assert(s[ks] == x);
            assert(s.contains(x));
        } else {
            assert(e == t);
            lemma_total_remove(s, v);
            let x = s[v];
            assert(s.contains(x));
            if e.contains(x) {
                let k = choose|k: int| 0 <= k < t.len() && t[k] == x;
                let ks = if k < v { k } else { k + 1 };
                assert(s[ks] == x);
                assert(ks != v);
            }
        }
    }
}

/// Only entries past their grace period are evicted.
proof fn lemma_evicted_expired<V>(
    s: Seq<ThumbView<V>>,
    cap_bytes: nat,
    cap_entries: nat,
    now: u64,
    grace: u64,
    x: ThumbView<V>,
)
    requires
        s.contains(x),
        !evicted(s, cap_bytes, cap_entries, now, grace).contains(x),
    ensures
        expired(x, now, grace),
    decreases s.len(),
{
    if over_caps(s, cap_bytes, cap_entries) && has_expired(s, now, grace) {
        lemma_victim_exists(s, now, grace);
        let v = lru_victim(s, now, grace);
        let t = s.remove(v);
        if x != s[v] {
            let k = choose|k: int| 0 <= k < s.len() && s[k] == x;
            let kt = if k < v { k } else { k - 1 };
            assert(t[kt] == x);
            lemma_evicted_expired(t, cap_bytes, cap_entries, now, grace, x);
        }
    }
}

/// The thumbnail cache's eviction law in one statement. With `e` the entries
/// left: a cache within its caps is left as it is; the entries left were
/// cached before; only entries past their grace period are evicted, and all
/// those within it stay; every evicted entry was used no later than any entry
/// past its grace period that stays; when an entry past its grace period
/// stays, both caps hold; and when anything was evicted, putting the last one
/// back would break a cap. (The bytes `ThumbTextures::evict` returns are the
/// old total less the new one.)
pub proof fn lemma_evict_law<V>(s: Seq<ThumbView<V>>, cap_bytes: nat, cap_entries: nat, now: u64, grace: u64)
    requires
        ids_unique(s),
    ensures
        ({
            let e = evicted(s, cap_bytes, cap_entries, now, grace);
            &&& !over_caps(s, cap_bytes, cap_entries) ==> e == s
            &&& forall|x: ThumbView<V>| #[trigger] e.contains(x) ==> s.contains(x)
            &&& forall|x: ThumbView<V>| s.contains(x) && !e.contains(x) ==> #[trigger] expired(x, now, grace)
            &&& forall|i: int| 0 <= i < s.len() && !expired(#[trigger] s[i], now, grace) ==> e.contains(s[i])
            &&& forall|r: ThumbView<V>, k: ThumbView<V>|
                s.contains(r) && !e.contains(r) && #[trigger] e.contains(k) && expired(k, now, grace)
                    ==> #[trigger] r.last_used <= k.last_used
            &&& has_expired(e, now, grace) ==> !over_caps(e, cap_bytes, cap_entries)
            &&& e.len() < s.len() ==> exists|x: ThumbView<V>|
                #![trigger s.contains(x)]
                s.contains(x) && !e.contains(x) && expired(x, now, grace) && (total_bytes(e) + x.bytes > cap_bytes
                    || e.len() + 1 > cap_entries)
        }),
{
    let e = evicted(s, cap_bytes, cap_entries, now, grace);
    lemma_evict_soft_cap(s, cap_bytes, cap_entries, now, grace);
    lemma_evict_stops_in_time(s, cap_bytes, cap_entries, now, grace);
    assert forall|x: ThumbView<V>| #[trigger] e.contains(x) implies s.contains(x) by {
        lemma_evicted_within(s, cap_bytes, cap_entries, now, grace, x);
    }
    assert forall|x: ThumbView<V>| s.contains(x) && !e.contains(x) implies #[trigger] expired(x, now, grace) by {
        lemma_evicted_expired(s, cap_bytes, cap_entries, now, grace, x);
    }
}

/// Thumbnail textures keyed by file id.
///
/// The caps are soft: eviction only removes entries whose grace period has
/// passed, oldest use first, and stops as soon as both caps hold again; when
/// every entry is still within its grace period the cache may stay over a cap.
pub struct ThumbTextures<V> {
    entries: Vec<Entry<V>>,
    bytes: usize,
    cap_bytes: usize,
    cap_entries: usize,
    grace: u64,
}

impl<V> ThumbTextures<V> {
    /// The cached textures, in insertion order.
    pub closed spec fn model(&self) -> Seq<ThumbView<V>> {
        self.entries@.map_values(
            |e: Entry<V>| ThumbView { id: e.id@, value: e.value, bytes: e.bytes as nat, last_used: e.last_used },
        )
    }

    pub closed spec fn spec_cap_bytes(&self) -> nat {
        self.cap_bytes as nat
    }

    pub closed spec fn spec_cap_entries(&self) -> nat {
        self.cap_entries as nat
    }

    pub closed spec fn spec_grace(&self) -> u64 {
        self.grace
    }

    /// Internal consistency: distinct ids and an exact byte total.
    pub closed spec fn wf(&self) -> bool {
        &&& ids_unique(self.model())
        &&& self.bytes as nat == total_bytes(self.model())
    }

    /// An empty cache with the default caps (64 MiB, 512 textures, 2 s grace).
    pub fn new() -> (c: Self)
        ensures
            c.wf(),
            c.model() == Seq::<ThumbView<V>>::empty(),
            c.spec_cap_bytes() == TEXTURE_CAP_BYTES,
            c.spec_cap_entries() == TEXTURE_CAP_ENTRIES,
            c.spec_grace() == TEXTURE_GRACE_MS,
    {
        Self::with_limits(TEXTURE_CAP_BYTES, TEXTURE_CAP_ENTRIES, TEXTURE_GRACE_MS)
    }

    /// An empty cache with the given caps and grace period (milliseconds).
    pub fn with_limits(cap_bytes: usize, cap_entries: usize, grace: u64) -> (c: Self)
        ensures
            c.wf(),
            c.model() == Seq::<ThumbView<V>>::empty(),
            c.spec_cap_bytes() == cap_bytes,
            c.spec_cap_entries() == cap_entries,
            c.spec_grace() == grace,
    {
        let c = ThumbTextures { entries: Vec::new(), bytes: 0, cap_bytes, cap_entries, grace };
        assert(c.model() =~= Seq::<ThumbView<V>>::empty());
        c
    }

    /// Whether the cache is above its byte cap or its entry cap.
    fn over_cap(&self) -> (b: bool)
        requires
            self.wf(),
        ensures
            b == over_caps(self.model(), self.spec_cap_bytes(), self.spec_cap_entries()),
    {
        self.bytes > self.cap_bytes || self.entries.len() > self.cap_entries
    }

    fn find(&self, id: &str) -> (r: Option<usize>)
        requires
            self.wf(),
        ensures
            match r {
                Some(i) => index_of(self.model(), id@) == Some(i as int),
                None => index_of(self.model(), id@) is None,
            },
    {
        let k = crate::text::chars_of(id);
        let ghost m = self.model();
        let mut i: usize = 0;
        while i < self.entries.len()
            invariant
                0 <= i <= self.entries@.len(),
                m == self.model(),
                ids_unique(m),
                m.len() == self.entries@.len(),
                k@ == id@,
                forall|j: int| 0 <= j < i ==> m[j].id != id@,
            decreases self.entries@.len() - i,
        {
            let name = crate::text::chars_of(self.entries[i].id.as_str());
            if chars_eq(&name, &k) {
                proof {
                    assert(m[i as int].id == id@);
                    let w = choose|w: int| 0 <= w < m.len() && m[w].id == id@;
                    assert(w == i) by {
                        if w != i {
                            if w < i {
                                assert(m[w].id != m[i as int].id);
                            } else {
                                assert(m[i as int].id != m[w].id);
                            }
                        }
                    }
                }
                return Some(i);
            }
            i += 1;
        }
        None
    }

    /// Whether a texture for `id` is cached.
    pub fn contains(&self, id: &str) -> (b: bool)
        requires
            self.wf(),
        ensures
            b == (index_of(self.model(), id@) is Some),
    {
        self.find(id).is_some()
    }

    /// The texture cached for `id`.
    pub fn get(&self, id: &str) -> (r: Option<&V>)
        requires
            self.wf(),
        ensures
            match r {
                Some(v) => index_of(self.model(), id@) is Some && *v == self.model()[index_of(
                    self.model(),
                    id@,
                )->0].value,
                None => index_of(self.model(), id@) is None,
            },
    {
        match self.find(id) {
            Some(i) => Some(&self.entries[i].value),
            None => None,
        }
    }

    /// Number of cached textures.
    pub fn len(&self) -> (n: usize)
        requires
            self.wf(),
        ensures
            n == self.model().len(),
    {
        self.entries.len()
    }

    /// Records that `id` was just used, so it gets a fresh grace period; unknown ids are ignored.
    pub fn mark_used(&mut self, id: &str, now: u64)
        requires
            old(self).wf(),
        ensures
            final(self).wf(),
            final(self).spec_cap_bytes() == old(self).spec_cap_bytes(),
            final(self).spec_cap_entries() == old(self).spec_cap_entries(),
            final(self).spec_grace() == old(self).spec_grace(),
            match index_of(old(self).model(), id@) {
                Some(i) => final(self).model() == old(self).model().update(
                    i,
                    ThumbView { last_used: now, ..old(self).model()[i] },
                ),
                None => final(self).model() == old(self).model(),
            },
    {
        if let Some(i) = self.find(id) {
            let ghost m = self.model();
            let mut e = self.entries.remove(i);
            e.last_used = now;
            self.entries.insert(i, e);
            proof {
                let nm = self.model();
                assert(nm =~= m.update(i as int, ThumbView { last_used: now, ..m[i as int] }));
                lemma_total_update(m, i as int, nm[i as int]);
                assert forall|a: int, b: int| 0 <= a < b < nm.len() implies nm[a].id != nm[b].id by {
                    assert(nm[a].id == m[a].id);
                    assert(nm[b].id == m[b].id);
                }
            }
        }
    }

    /// Inserts (or replaces) the texture for `id`; `bytes` is its decoded size.
    pub fn insert(&mut self, id: String, value: V, bytes: usize, now: u64)
        requires
            old(self).wf(),
            total_bytes(old(self).model()) + bytes - (match index_of(old(self).model(), id@) {
                Some(i) => old(self).model()[i].bytes,
                None => 0,
            }) <= usize::MAX,
        ensures
            final(self).wf(),
            final(self).spec_cap_bytes() == old(self).spec_cap_bytes(),
            final(self).spec_cap_entries() == old(self).spec_cap_entries(),
            final(self).spec_grace() == old(self).spec_grace(),
            match index_of(old(self).model(), id@) {
                Some(i) => final(self).model() == old(self).model().update(
                    i,
                    ThumbView { id: id@, value, bytes: bytes as nat, last_used: now },
                ),
                None => final(self).model() == old(self).model().push(
                    ThumbView { id: id@, value, bytes: bytes as nat, last_used: now },
                ),
            },
    {
        let ghost m = self.model();
        let ghost nv = ThumbView { id: id@, value, bytes: bytes as nat, last_used: now };
        match self.find(id.as_str()) {
            Some(i) => {
                let old_bytes = self.entries[i].bytes;
                proof {
                    lemma_total_remove(m, i as int);
                }
                let _ = self.entries.remove(i);
                self.entries.insert(i, Entry { id, value, bytes, last_used: now });
                proof {
                    let nm = self.model();
                    assert(nm =~= m.update(i as int, nv));
                    lemma_total_update(m, i as int, nv);
                    assert forall|a: int, b: int| 0 <= a < b < nm.len() implies nm[a].id != nm[b].id by {
                        if a != i {
                            assert(nm[a].id == m[a].id);
                        }
                        if b != i {
                            assert(nm[b].id == m[b].id);
                        }
                    }
                }
                self.bytes = self.bytes - old_bytes + bytes;
            },
            None => {
                self.entries.push(Entry { id, value, bytes, last_used: now });
                proof {
                    let nm = self.model();
                    assert(nm =~= m.push(nv));
                    lemma_total_push(m, nv);
                    assert forall|a: int, b: int| 0 <= a < b < nm.len() implies nm[a].id != nm[b].id by {
                        if b == m.len() {
                            assert(m[a].id != id@);
                        }
                    }
                }
                self.bytes = self.bytes + bytes;
            },
        }
    }

    /// Index of the eviction victim: the first of the least recently used
    /// entries whose grace period has passed.
    fn victim(&self, now: u64) -> (r: Option<usize>)
        requires
            self.wf(),
        ensures
            match r {
                Some(i) => is_lru_victim(self.model(), i as int, now, self.spec_grace()),
                None => !has_expired(self.model(), now, self.spec_grace()),
            },
    {
        let ghost m = self.model();
        let mut best: Option<usize> = None;
        let mut i: usize = 0;
        while i < self.entries.len()
            invariant
                0 <= i <= self.entries@.len(),
                m == self.model(),
                m.len() == self.entries@.len(),
                self.grace == self.spec_grace(),
                match best {
                    Some(b) => b < i && expired(m[b as int], now, self.grace) && (forall|j: int|
                        0 <= j < i && expired(#[trigger] m[j], now, self.grace) ==> m[b as int].last_used
                            <= m[j].last_used) && (forall|j: int|
                        0 <= j < b && expired(#[trigger] m[j], now, self.grace) ==> m[j].last_used
                            > m[b as int].last_used),
                    None => forall|j: int| 0 <= j < i ==> !expired(#[trigger] m[j], now, self.grace),
                },
            decreases self.entries@.len() - i,
        {
            let lu = self.entries[i].last_used;
            assert(m[i as int].last_used == lu);
            let is_exp = if now >= lu {
                now - lu >= self.grace
            } else {
                self.grace == 0
            };
            if is_exp {
                match best {
                    None => {
                        best = Some(i);
                    },
                    Some(b) => {
                        if lu < self.entries[b].last_used {
                            best = Some(i);
                        }
                    },
                }
            }
            i += 1;
        }
        best
    }

    /// Evicts least recently used entries past their grace period until both
    /// caps hold again (or none is left to evict); returns the bytes freed.
    pub fn evict(&mut self, now: u64) -> (freed: usize)
        requires
            old(self).wf(),
        ensures
            final(self).wf(),
            final(self).spec_cap_bytes() == old(self).spec_cap_bytes(),
            final(self).spec_cap_entries() == old(self).spec_cap_entries(),
            final(self).spec_grace() == old(self).spec_grace(),
            final(self).model() == evicted(
                old(self).model(),
                old(self).spec_cap_bytes(),
                old(self).spec_cap_entries(),
                now,
                old(self).spec_grace(),
            ),
            freed + total_bytes(final(self).model()) == total_bytes(old(self).model()),
    {
        let ghost m0 = self.model();
        let ghost cb = self.spec_cap_bytes();
        let ghost ce = self.spec_cap_entries();
        let ghost g = self.spec_grace();
        let mut freed: usize = 0;
        loop
            invariant
                self.wf(),
                self.spec_cap_bytes() == cb,
                self.spec_cap_entries() == ce,
                self.spec_grace() == g,
                evicted(self.model(), cb, ce, now, g) == evicted(m0, cb, ce, now, g),
                freed + total_bytes(self.model()) == total_bytes(m0),
                total_bytes(m0) <= usize::MAX,
            ensures
                self.wf(),
                self.spec_cap_bytes() == cb,
                self.spec_cap_entries() == ce,
                self.spec_grace() == g,
                self.model() == evicted(m0, cb, ce, now, g),
                freed + total_bytes(self.model()) == total_bytes(m0),
            decreases self.model().len(),
        {
            if !self.over_cap() {
                break;
            }
            let i = match self.victim(now) {
                Some(i) => i,
                None => break,
            };
            let ghost m = self.model();
            proof {
                let w = lru_victim(m, now, g);
                assert(is_lru_victim(m, i as int, now, g));
                lemma_victim_unique(m, w, i as int, now, g);
                lemma_total_remove(m, i as int);
            }
            let e = self.entries.remove(i);
            proof {
                let nm = self.model();
                assert(nm =~= m.remove(i as int));
                assert forall|a: int, b: int| 0 <= a < b < nm.len() implies nm[a].id != nm[b].id by {
                    let a2 = if a < i { a } else { a + 1 };
                    let b2 = if b < i { b } else { b + 1 };
                    assert(nm[a] == m[a2]);
                    assert(nm[b] == m[b2]);
                }
            }
            self.bytes = self.bytes - e.bytes;
            freed = freed + e.bytes;
        }
        freed
    }

    /// Total decoded bytes of the cached textures.
    pub fn bytes(&self) -> (n: usize)
        requires
            self.wf(),
        ensures
            n == total_bytes(self.model()),
    {
        self.bytes
    }
}

} // verus!
