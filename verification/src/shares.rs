//! The user's own shares, listed page by page. As with the other paged
//! lists, each request carries an id and an answer to an older request is
//! dropped; a later page adds only shares not listed yet.

use vstd::prelude::*;

use crate::browse::{contains_id, distinct_ids, has_id, insert_id, remove_id};
use crate::dircache::among;
use crate::pages::{fresh, PageAsk};
use crate::format::{fmt_time, iso_minutes};
use crate::text::{
    chars_of, contains, contains_chars, dec, parse_i64, push_chars, push_dec, push_str, str_eq, string_from_chars, trim,
    trim_chars,
};
use crate::types::{expiry_text, Share, ShareList};

verus! {

/// How long the list counts as fresh when the page is opened again (ms).
pub const SHARES_TTL_MS: u64 = 60000;

/// The share ids of a list of shares.
pub open spec fn share_ids(ss: Seq<Share>) -> Seq<Seq<char>> {
    ss.map_values(|s: Share| s.share_id@)
}

/// The shares of a later page that were not listed yet.
pub open spec fn new_shares(base: Seq<Share>, page: Seq<Share>) -> Seq<Share> {
    page.filter(|s: Share| !share_ids(base).contains(s.share_id@))
}

/// The list after a page: a first page replaces it, a later one adds its new shares.
pub open spec fn shares_merged(base: Seq<Share>, page: Seq<Share>, append: bool) -> Seq<Share> {
    if append {
        base + new_shares(base, page)
    } else {
        page
    }
}

/// The shares page.
#[derive(Debug)]
pub struct SharesPage {
    pub items: Vec<Share>,
    pub next: Option<String>,
    pub loading: bool,
    /// Id of the last request sent.
    pub req: u64,
    /// When the first page last arrived (ms of a monotonic clock).
    pub fetched_at: Option<u64>,
    /// Selected share ids.
    pub selected: Vec<String>,
}

impl SharesPage {
    /// Nothing listed yet.
    pub fn new() -> (p: SharesPage)
        ensures
            p.items@.len() == 0,
            p.next is None,
            !p.loading,
            p.req == 0,
            p.fetched_at is None,
            p.selected@.len() == 0,
    {
        SharesPage { items: Vec::new(), next: None, loading: false, req: 0, fetched_at: None, selected: Vec::new() }
    }

    /// Asks for the first page again, keeping what is shown until it
    /// arrives; the selection is dropped.
    pub fn refresh(&mut self) -> (ask: PageAsk)
        requires
            old(self).req < u64::MAX,
        ensures
            final(self).req == old(self).req + 1,
            final(self).loading,
            final(self).next is None,
            final(self).selected@.len() == 0,
            final(self).items@ == old(self).items@,
            final(self).fetched_at == old(self).fetched_at,
            ask.token is None && !ask.append && ask.req_id == final(self).req,
    {
        self.loading = true;
        self.next = None;
        self.selected = Vec::new();
        self.req = self.req + 1;
        PageAsk { token: None, append: false, req_id: self.req }
    }

    /// Opening the page at `now`: a list fetched less than `ttl` ago is
    /// shown as it is; otherwise the first page is asked for again.
    pub fn enter(&mut self, now: u64, ttl: u64) -> (ask: Option<PageAsk>)
        requires
            old(self).req < u64::MAX,
        ensures
            fresh(old(self).fetched_at, now, ttl) ==> ask is None && final(self).req == old(self).req
                && final(self).loading == old(self).loading && final(self).next == old(self).next,
            !fresh(old(self).fetched_at, now, ttl) ==> (ask matches Some(a) && a.token is None && !a.append
                && a.req_id == old(self).req + 1) && final(self).req == old(self).req + 1 && final(self).loading
                && final(self).next is None && final(self).selected@.len() == 0,
            final(self).items@ == old(self).items@,
    {
        let is_fresh = match self.fetched_at {
            Some(t) => (if now >= t {
                now - t
            } else {
                0
            }) < ttl,
            None => false,
        };
        if is_fresh {
            None
        } else {
            Some(self.refresh())
        }
    }

    /// A new share was made: the list is no longer fresh.
    pub fn invalidate(&mut self)
        ensures
            final(self).fetched_at is None,
            final(self).items@ == old(self).items@,
            final(self).req == old(self).req,
            final(self).next == old(self).next,
            final(self).loading == old(self).loading,
    {
        self.fetched_at = None;
    }

    /// Asks for the next page, when there is one.
    pub fn load_more(&mut self) -> (ask: Option<PageAsk>)
        requires
            old(self).req < u64::MAX,
        ensures
            old(self).next is None ==> ask is None && final(self).req == old(self).req
                && final(self).loading == old(self).loading,
            old(self).next matches Some(t) ==> (ask matches Some(a) && a.token == Some(t) && a.append
                && a.req_id == old(self).req + 1) && final(self).req == old(self).req + 1 && final(self).loading,
            final(self).items@ == old(self).items@,
            final(self).next == old(self).next,
            final(self).selected@ == old(self).selected@,
    {
        let token = match &self.next {
            Some(t) => t.clone(),
            None => return None,
        };
        self.loading = true;
        self.req = self.req + 1;
        Some(PageAsk { token: Some(token), append: true, req_id: self.req })
    }

    /// The answer to request `req_id` arrived at `now`: unless a later
    /// request was sent, the page replaces the list (first page) or adds the
    /// shares not listed yet, and the next token is taken.
    pub fn answer(&mut self, req_id: u64, page: ShareList, append: bool, now: u64) -> (taken: bool)
        ensures
            taken == (req_id == old(self).req),
            !taken ==> final(self).items@ == old(self).items@ && final(self).next == old(self).next
                && final(self).loading == old(self).loading && final(self).fetched_at == old(self).fetched_at,
            taken ==> {
                &&& final(self).items@ == shares_merged(old(self).items@, page.shares@, append)
                &&& final(self).next == page.next_page_token
                &&& !final(self).loading
                &&& final(self).fetched_at == Some(now)
            },
            final(self).req == old(self).req,
            final(self).selected@ == old(self).selected@,
    {
        if req_id != self.req {
            return false;
        }
        self.loading = false;
        self.fetched_at = Some(now);
        self.next = page.next_page_token;
        if append {
            let mut base: Vec<Share> = Vec::new();
            std::mem::swap(&mut base, &mut self.items);
            self.items = merge_shares(base, page.shares);
        } else {
            self.items = page.shares;
        }
        true
    }

    /// The shares were cancelled: they leave the list and the selection.
    pub fn remove_ids(&mut self, ids: &[String])
        ensures
            final(self).items@ == old(self).items@.filter(|s: Share| !among(ids@, s.share_id@)),
            final(self).selected@ == old(self).selected@.filter(|s: String| !among(ids@, s@)),
            final(self).next == old(self).next,
            final(self).req == old(self).req,
            final(self).fetched_at == old(self).fetched_at,
    {
        let ghost i0 = self.items@;
        let ghost ipred = |s: Share| !among(ids@, s.share_id@);
        let mut rest: Vec<Share> = Vec::new();
        std::mem::swap(&mut rest, &mut self.items);
        let total = rest.len();
        let mut k: usize = 0;
        while rest.len() > 0
            invariant
                total == i0.len(),
                0 <= k <= i0.len(),
                rest@ == i0.subrange(k as int, i0.len() as int),
                self.items@ == i0.take(k as int).filter(ipred),
                ipred == (|s: Share| !among(ids@, s.share_id@)),
                self.selected@ == old(self).selected@,
                self.next == old(self).next,
                self.req == old(self).req,
                self.fetched_at == old(self).fetched_at,
            decreases rest@.len(),
        {
            let x = rest.remove(0);
            proof {
                assert(k < i0.len());
                assert(x == i0[k as int]);
                assert(i0.take(k + 1) == i0.take(k as int).push(x));
                i0.take(k as int).lemma_filter_push(x, ipred);
            }
            if !contains_id(ids, x.share_id.as_str()) {
                self.items.push(x);
            }
            k = k + 1;
            proof {
                assert(rest@ == i0.subrange(k as int, i0.len() as int));
            }
        }
        proof {
            assert(i0.take(k as int) == i0);
        }
        let ghost s0 = self.selected@;
        let ghost spred = |s: String| !among(ids@, s@);
        let mut rest2: Vec<String> = Vec::new();
        std::mem::swap(&mut rest2, &mut self.selected);
        let total2 = rest2.len();
        let mut k2: usize = 0;
        while rest2.len() > 0
            invariant
                total2 == s0.len(),
                0 <= k2 <= s0.len(),
                rest2@ == s0.subrange(k2 as int, s0.len() as int),
                self.selected@ == s0.take(k2 as int).filter(spred),
                spred == (|s: String| !among(ids@, s@)),
                self.items@ == i0.filter(ipred),
                ipred == (|s: Share| !among(ids@, s.share_id@)),
                s0 == old(self).selected@,
                i0 == old(self).items@,
                self.next == old(self).next,
                self.req == old(self).req,
                self.fetched_at == old(self).fetched_at,
            decreases rest2@.len(),
        {
            let x = rest2.remove(0);
            proof {
                assert(k2 < s0.len());
                assert(x == s0[k2 as int]);
                assert(s0.take(k2 + 1) == s0.take(k2 as int).push(x));
                s0.take(k2 as int).lemma_filter_push(x, spred);
            }
            if !contains_id(ids, x.as_str()) {
                self.selected.push(x);
            }
            k2 = k2 + 1;
            proof {
                assert(rest2@ == s0.subrange(k2 as int, s0.len() as int));
            }
        }
        proof {
            assert(s0.take(k2 as int) == s0);
        }
    }

    /// Ticks (`on`) or unticks share `id`.
    pub fn set_selected(&mut self, id: String, on: bool)
        requires
            distinct_ids(old(self).selected@),
        ensures
            distinct_ids(final(self).selected@),
            forall|s: Seq<char>| #[trigger] has_id(final(self).selected@, s) <==> (if on {
                has_id(old(self).selected@, s) || s == id@
            } else {
                has_id(old(self).selected@, s) && s != id@
            }),
            final(self).items@ == old(self).items@,
    {
        if on {
            insert_id(&mut self.selected, id);
        } else {
            remove_id(&mut self.selected, id.as_str());
        }
    }

    /// Selects every listed share (`on`), or none.
    pub fn select_all(&mut self, on: bool)
        ensures
            on ==> final(self).selected@.map_values(|s: String| s@) == share_ids(old(self).items@),
            !on ==> final(self).selected@.len() == 0,
            final(self).items@ == old(self).items@,
    {
        if !on {
            self.selected = Vec::new();
            return;
        }
        let mut ids: Vec<String> = Vec::new();
        let mut i: usize = 0;
        while i < self.items.len()
            invariant
                0 <= i <= self.items@.len(),
                ids@.map_values(|s: String| s@) == share_ids(self.items@.take(i as int)),
            decreases self.items@.len() - i,
        {
            let ghost i0 = ids@;
            ids.push(self.items[i].share_id.clone());
            proof {
                assert(self.items@.take(i + 1) == self.items@.take(i as int).push(self.items@[i as int]));
                assert(ids@.map_values(|s: String| s@) =~= i0.map_values(|s: String| s@).push(
                    self.items@[i as int].share_id@,
                ));
                assert(share_ids(self.items@.take(i + 1)) =~= share_ids(self.items@.take(i as int)).push(
                    self.items@[i as int].share_id@,
                ));
            }
            i += 1;
        }
        proof {
            assert(self.items@.take(i as int) == self.items@);
        }
        self.selected = ids;
    }

    /// Whether the "select all" box shows as ticked.
    pub fn all_selected(&self) -> (b: bool)
        ensures
            b == (self.items@.len() > 0 && self.selected@.len() >= self.items@.len()),
    {
        self.items.len() > 0 && self.selected.len() >= self.items.len()
    }

    /// Everything emptied (logging out, or the session ended).
    pub fn clear(&mut self)
        ensures
            final(self).items@.len() == 0,
            final(self).next is None,
            !final(self).loading,
            final(self).req == 0,
            final(self).fetched_at is None,
            final(self).selected@.len() == 0,
    {
        *self = SharesPage::new();
    }
}

/// Adds the shares of a later page that are not listed yet, in order.
fn merge_shares(base: Vec<Share>, page: Vec<Share>) -> (out: Vec<Share>)
    ensures
        out@ == base@ + new_shares(base@, page@),
{
    let ghost b0 = base@;
    let ghost p0 = page@;
    let ghost pred = |s: Share| !share_ids(b0).contains(s.share_id@);
    let n0 = base.len();
    let mut out = base;
    let mut page = page;
    let total = page.len();
    let mut k: usize = 0;
    while page.len() > 0
        invariant
            n0 == b0.len(),
            out@.len() >= n0,
            out@.subrange(0, n0 as int) == b0,
            out@.subrange(n0 as int, out@.len() as int) == p0.take(k as int).filter(pred),
            page@ == p0.subrange(k as int, p0.len() as int),
            k <= p0.len(),
            total == p0.len(),
            pred == (|s: Share| !share_ids(b0).contains(s.share_id@)),
        decreases page@.len(),
    {
        let f = page.remove(0);
        proof {
            assert(k < p0.len());
            assert(f == p0[k as int]);
            assert(p0.take(k + 1) == p0.take(k as int).push(f));
            p0.take(k as int).lemma_filter_push(f, pred);
        }
        let mut seen = false;
        let mut j: usize = 0;
        while j < n0
            invariant
                n0 == b0.len(),
                out@.len() >= n0,
                out@.subrange(0, n0 as int) == b0,
                0 <= j <= n0,
                seen == (exists|m: int| 0 <= m < j && #[trigger] b0[m].share_id@ == f.share_id@),
            decreases n0 - j,
        {
            assert(out@[j as int] == b0[j as int]);
            if str_eq(out[j].share_id.as_str(), f.share_id.as_str()) {
                seen = true;
            }
            j += 1;
        }
        proof {
            if seen {
                let m = choose|m: int| 0 <= m < n0 && #[trigger] b0[m].share_id@ == f.share_id@;
                assert(share_ids(b0)[m] == f.share_id@);
                assert(share_ids(b0).contains(f.share_id@));
            } else {
                if share_ids(b0).contains(f.share_id@) {
                    let m = choose|m: int| 0 <= m < share_ids(b0).len() && share_ids(b0)[m] == f.share_id@;
                    assert(b0[m].share_id@ == f.share_id@);
                }
            }
        }
        let ghost before = out@;
        if !seen {
            out.push(f);
            proof {
                assert(out@.subrange(0, n0 as int) == before.subrange(0, n0 as int));
                assert(out@.subrange(n0 as int, out@.len() as int) == before.subrange(
                    n0 as int,
                    before.len() as int,
                ).push(f));
            }
        }
        k = k + 1;
        proof {
            assert(page@ == p0.subrange(k as int, p0.len() as int));
        }
    }
    proof {
        assert(p0.take(k as int) == p0);
        assert(out@ == out@.subrange(0, n0 as int) + out@.subrange(n0 as int, out@.len() as int));
    }
    out
}

/// The validity choices offered when making a share, in days (-1: forever).
pub open spec fn expiry_choice_text(days: i64) -> Seq<char> {
    if days == 1 {
        "1 天"@
    } else if days == 7 {
        "7 天"@
    } else if days == 30 {
        "30 天"@
    } else {
        "永久"@
    }
}

/// The label of a validity choice.
pub fn expiry_choice_label(days: i64) -> (r: &'static str)
    ensures
        r@ == expiry_choice_text(days),
{
    if days == 1 {
        "1 天"
    } else if days == 7 {
        "7 天"
    } else if days == 30 {
        "30 天"
    } else {
        "永久"
    }
}

/// What a new share is called in notices: the one file's name, else the count.
pub open spec fn share_label_text(targets: Seq<(String, String)>) -> Seq<char> {
    if targets.len() == 1 {
        targets[0].1@
    } else {
        dec(targets.len()) + " 项"@
    }
}

/// The files of a new share (ids, in order) and its label.
pub fn share_request(targets: &[(String, String)]) -> (r: (Vec<String>, String))
    ensures
        r.0@.map_values(|s: String| s@) == targets@.map_values(|t: (String, String)| t.0@),
        r.1@ == share_label_text(targets@),
{
    let mut ids: Vec<String> = Vec::new();
    let mut i: usize = 0;
    while i < targets.len()
        invariant
            0 <= i <= targets@.len(),
            ids@.map_values(|s: String| s@) == targets@.take(i as int).map_values(|t: (String, String)| t.0@),
        decreases targets@.len() - i,
    {
        let ghost i0 = ids@;
        ids.push(targets[i].0.clone());
        proof {
            assert(targets@.take(i + 1) == targets@.take(i as int).push(targets@[i as int]));
            assert(ids@.map_values(|s: String| s@) =~= i0.map_values(|s: String| s@).push(targets@[i as int].0@));
            assert(targets@.take(i + 1).map_values(|t: (String, String)| t.0@) =~= targets@.take(
                i as int,
            ).map_values(|t: (String, String)| t.0@).push(targets@[i as int].0@));
        }
        i += 1;
    }
    assert(targets@.take(targets@.len() as int) == targets@);
    let label = if targets.len() == 1 {
        targets[0].1.clone()
    } else {
        let mut out: Vec<char> = Vec::new();
        push_dec(&mut out, targets.len() as u64);
        push_str(&mut out, " 项");
        string_from_chars(&out)
    };
    (ids, label)
}

/// The text "copy link and code" puts on the clipboard: the server's share
/// text when it holds the code, else the link followed by the code.
pub open spec fn link_and_code_text(url: Seq<char>, pass_code: Seq<char>, share_text: Seq<char>) -> Seq<char> {
    if share_text.len() > 0 && contains(share_text, pass_code) {
        share_text
    } else {
        url + " 提取码: "@ + pass_code
    }
}

/// The link and access code of a new share, as one text to copy.
pub fn link_and_code(url: &str, pass_code: &str, share_text: &str) -> (r: String)
    ensures
        r@ == link_and_code_text(url@, pass_code@, share_text@),
{
    if !share_text.is_empty() && contains_chars(&chars_of(share_text), &chars_of(pass_code)) {
        return share_text.to_owned();
    }
    let mut out: Vec<char> = Vec::new();
    push_str(&mut out, url);
    push_str(&mut out, " 提取码: ");
    push_str(&mut out, pass_code);
    string_from_chars(&out)
}

/// A whole number in decimal, with a minus sign when negative.
pub open spec fn signed_dec(n: int) -> Seq<char> {
    if n < 0 {
        "-"@ + dec((-n) as nat)
    } else {
        dec(n as nat)
    }
}

fn push_i64(out: &mut Vec<char>, n: i64)
    ensures
        final(out)@ == old(out)@ + signed_dec(n as int),
{
    if n < 0 {
        out.push('-');
        let m: u64 = (-(n + 1)) as u64 + 1;
        assert(m as int == -(n as int));
        push_dec(out, m);
        assert(final(out)@ == old(out)@ + "-"@ + dec(m as nat)) by {
            assert("-"@ == seq!['-']) by {
                reveal_strlit("-");
            }
        }
    } else {
        push_dec(out, n as u64);
    }
}

/// How a share is marked.
#[derive(Debug, Clone, Copy, PartialEq, Eq)]
pub enum ShareBadge {
    /// Expired or otherwise unavailable.
    Expired,
    /// Needs an access code.
    Private,
    Public,
}

/// What a row of the shares page shows.
#[derive(Debug, Clone, PartialEq, Eq)]
pub struct ShareRow {
    pub title: String,
    pub badge: ShareBadge,
    /// Files, validity, views, saves, and when it was made.
    pub meta: String,
    /// The access-code line, for a share with a code.
    pub code_line: Option<String>,
    /// What "copy link and code" copies, for a share with a code.
    pub link_and_code: Option<String>,
}

/// A counter as shown: its trimmed text, "0" when blank.
pub open spec fn count_text(c: Seq<char>) -> Seq<char> {
    if trim(c).len() == 0 {
        "0"@
    } else {
        trim(c)
    }
}

/// The details line of a share.
pub open spec fn share_meta_text(s: Share) -> Seq<char> {
    let files = match parse_i64(trim(s.file_num@)) {
        Some(v) => v as int,
        None => 0,
    };
    let base = signed_dec(files) + " 个文件 · 有效期 "@ + expiry_text(s.expiration_days@) + " · 浏览 "@
        + count_text(s.view_count@) + " · 转存 "@ + count_text(s.restore_count@);
    if s.create_time@.len() > 0 {
        base + " · "@ + iso_minutes(s.create_time@)
    } else {
        base
    }
}

fn push_count(out: &mut Vec<char>, c: &str)
    ensures
        final(out)@ == old(out)@ + count_text(c@),
{
    let t = trim_chars(&chars_of(c));
    if t.len() == 0 {
        push_str(out, "0");
    } else {
        push_chars(out, &t);
    }
}

/// The row of share `s` on the shares page.
pub fn share_row(s: &Share) -> (r: ShareRow)
    ensures
        r.title@ == (if s.title@.len() == 0 {
            "未命名分享"@
        } else {
            s.title@
        }),
        r.badge == (if s.share_status@.len() > 0 && s.share_status@ != "OK"@ {
            ShareBadge::Expired
        } else if s.pass_code@.len() > 0 || contains(s.share_to@, "encrypted"@) {
            ShareBadge::Private
        } else {
            ShareBadge::Public
        }),
        r.meta@ == share_meta_text(*s),
        s.pass_code@.len() == 0 ==> r.code_line is None && r.link_and_code is None,
        s.pass_code@.len() > 0 ==> (r.code_line matches Some(c) && c@ == "提取码 "@ + s.pass_code@) && (
        r.link_and_code matches Some(l) && l@ == s.share_url@ + " 提取码: "@ + s.pass_code@),
{
    let title = if s.title.as_str().is_empty() {
        "未命名分享".to_owned()
    } else {
        s.title.clone()
    };
    let badge = if s.is_unavailable() {
        ShareBadge::Expired
    } else if s.needs_pass_code() {
        ShareBadge::Private
    } else {
        ShareBadge::Public
    };
    let mut m: Vec<char> = Vec::new();
    push_i64(&mut m, s.file_count());
    push_str(&mut m, " 个文件 · 有效期 ");
    let exp = s.expiry_label();
    push_str(&mut m, exp.as_str());
    push_str(&mut m, " · 浏览 ");
    push_count(&mut m, s.view_count.as_str());
    push_str(&mut m, " · 转存 ");
    push_count(&mut m, s.restore_count.as_str());
    if !s.create_time.as_str().is_empty() {
        push_str(&mut m, " · ");
        let t = fmt_time(s.create_time.as_str());
        push_str(&mut m, t.as_str());
    }
    let meta = string_from_chars(&m);
    let (code_line, link) = if s.pass_code.as_str().is_empty() {
        (None, None)
    } else {
        let mut c: Vec<char> = Vec::new();
        push_str(&mut c, "提取码 ");
        push_str(&mut c, s.pass_code.as_str());
        let mut l: Vec<char> = Vec::new();
        push_str(&mut l, s.share_url.as_str());
        push_str(&mut l, " 提取码: ");
        push_str(&mut l, s.pass_code.as_str());
        (Some(string_from_chars(&c)), Some(string_from_chars(&l)))
    };
    ShareRow { title, badge, meta, code_line, link_and_code: link }
}

/// The shares to cancel (id, title), in list order, among the selected ids.
pub fn selected_shares(items: &[Share], selected: &[String]) -> (r: Vec<(String, String)>)
    ensures
        r@.map_values(|p: (String, String)| (p.0@, p.1@)) == items@.filter(|s: Share| among(selected@, s.share_id@)).map_values(
            |s: Share| (s.share_id@, s.title@),
        ),
{
    let ghost pred = |s: Share| among(selected@, s.share_id@);
    let mut r: Vec<(String, String)> = Vec::new();
    let mut i: usize = 0;
    while i < items.len()
        invariant
            0 <= i <= items@.len(),
            pred == (|s: Share| among(selected@, s.share_id@)),
            r@.map_values(|p: (String, String)| (p.0@, p.1@)) == items@.take(i as int).filter(pred).map_values(
                |s: Share| (s.share_id@, s.title@),
            ),
        decreases items@.len() - i,
    {
        proof {
            assert(items@.take(i + 1) == items@.take(i as int).push(items@[i as int]));
            items@.take(i as int).lemma_filter_push(items@[i as int], pred);
        }
        let ghost r0 = r@;
        if contains_id(selected, items[i].share_id.as_str()) {
            r.push((items[i].share_id.clone(), items[i].title.clone()));
            proof {
                assert(r@.map_values(|p: (String, String)| (p.0@, p.1@)) =~= r0.map_values(
                    |p: (String, String)| (p.0@, p.1@),
                ).push((items@[i as int].share_id@, items@[i as int].title@)));
            }
        }
        i += 1;
    }
    assert(items@.take(items@.len() as int) == items@);
    r
}

} // verus!
