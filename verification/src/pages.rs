//! Paged lists fetched page by page from the drive (the trash), and the
//! global search. Each request carries an id; an answer to any other request
//! than the last one is dropped, so a late page never lands in a newer list.

use vstd::prelude::*;

use crate::browse::{contains_id, distinct_ids, has_id, insert_id, remove_id, selected_ids, selected_in_order};
use crate::format::{fmt_bytes, fmt_time, iso_minutes, size_text};
use crate::dircache::{among, drop_ids, merge_listing, merged};
use crate::text::{chars_of, contains, push_str, str_eq, string_from_chars, trim, trim_chars};
use crate::types::{opt_view, File, FileList};

verus! {

/// How long the trash list counts as fresh when its page is opened again (ms).
pub const TRASH_TTL_MS: u64 = 60000;

/// A list loaded page by page, with its selection.
#[derive(Debug)]
pub struct PagedList {
    pub items: Vec<File>,
    /// Token of the next page (`None` on the last one).
    pub next: Option<String>,
    pub loading: bool,
    /// Id of the last request sent.
    pub req: u64,
    /// When the first page last arrived (milliseconds of a monotonic clock).
    pub fetched_at: Option<u64>,
    /// Selected ids.
    pub selected: Vec<String>,
}

/// A page to ask for: the token (none for the first page), whether it is
/// added to the list, and the request id.
pub struct PageAsk {
    pub token: Option<String>,
    pub append: bool,
    pub req_id: u64,
}

/// Whether a list fetched at `fetched_at` is still fresh at `now`.
pub open spec fn fresh(fetched_at: Option<u64>, now: u64, ttl: u64) -> bool {
    match fetched_at {
        Some(t) => (if now >= t {
            now - t
        } else {
            0
        }) < ttl,
        None => false,
    }
}

impl PagedList {
    /// An empty list that was never fetched.
    pub fn new() -> (l: PagedList)
        ensures
            l.items@.len() == 0,
            l.next is None,
            !l.loading,
            l.req == 0,
            l.fetched_at is None,
            l.selected@.len() == 0,
    {
        PagedList { items: Vec::new(), next: None, loading: false, req: 0, fetched_at: None, selected: Vec::new() }
    }

    /// Asks for the first page again, keeping what is shown until it
    /// arrives; the selection is dropped.
    pub fn refresh(&mut self) -> (ask: PageAsk)
        requires
            old(self).req < u64::MAX,
        ensures
            final(self).req == old(self).req + 1,
            final(self).loading,
            final(self).next is None,
            final(self).selected@.len() == 0,
            final(self).items@ == old(self).items@,
            final(self).fetched_at == old(self).fetched_at,
            ask.token is None && !ask.append && ask.req_id == final(self).req,
    {
        self.loading = true;
        self.next = None;
        self.selected = Vec::new();
        self.req = self.req + 1;
        PageAsk { token: None, append: false, req_id: self.req }
    }

    /// Opening the page at `now`: a list fetched less than `ttl` ago is shown
    /// as it is; otherwise the first page is asked for again.
    pub fn enter(&mut self, now: u64, ttl: u64) -> (ask: Option<PageAsk>)
        requires
            old(self).req < u64::MAX,
        ensures
            fresh(old(self).fetched_at, now, ttl) ==> ask is None && final(self).req == old(self).req
                && final(self).loading == old(self).loading && final(self).next == old(self).next,
            !fresh(old(self).fetched_at, now, ttl) ==> (ask matches Some(a) && a.token is None && !a.append
                && a.req_id == old(self).req + 1) && final(self).req == old(self).req + 1 && final(self).loading
                && final(self).next is None && final(self).selected@.len() == 0,
            final(self).items@ == old(self).items@,
    {
        let is_fresh = match self.fetched_at {
            Some(t) => (if now >= t {
                now - t
            } else {
                0
            }) < ttl,
            None => false,
        };
        if is_fresh {
            None
        } else {
            Some(self.refresh())
        }
    }

    /// Asks for the next page, when there is one.
    pub fn load_more(&mut self) -> (ask: Option<PageAsk>)
        requires
            old(self).req < u64::MAX,
        ensures
            old(self).next is None ==> ask is None && final(self).req == old(self).req
                && final(self).loading == old(self).loading,
            old(self).next matches Some(t) ==> (ask matches Some(a) && a.token == Some(t) && a.append
                && a.req_id == old(self).req + 1) && final(self).req == old(self).req + 1 && final(self).loading,
            final(self).items@ == old(self).items@,
            final(self).next == old(self).next,
            final(self).selected@ == old(self).selected@,
    {
        let token = match &self.next {
            Some(t) => t.clone(),
            None => return None,
        };
        self.loading = true;
        self.req = self.req + 1;
        Some(PageAsk { token: Some(token), append: true, req_id: self.req })
    }

    /// The answer to request `req_id` arrived at `now`: unless a later
    /// request was sent, the page replaces the list (first page) or is added
    /// to it without repeats, and the next token is taken.
    pub fn answer(&mut self, req_id: u64, page: FileList, append: bool, now: u64) -> (taken: bool)
        ensures
            taken == (req_id == old(self).req),
            !taken ==> final(self).items@ == old(self).items@ && final(self).next == old(self).next
                && final(self).loading == old(self).loading && final(self).fetched_at == old(self).fetched_at,
            taken ==> {
                &&& final(self).items@ == merged(old(self).items@, page.files@, append)
                &&& final(self).next == page.next_page_token
                &&& !final(self).loading
                &&& final(self).fetched_at == Some(now)
            },
            final(self).req == old(self).req,
            final(self).selected@ == old(self).selected@,
    {
        if req_id != self.req {
            return false;
        }
        self.loading = false;
        self.fetched_at = Some(now);
        self.next = page.next_page_token;
        merge_listing(&mut self.items, page.files, append);
        true
    }

    /// Entries were restored or deleted: they leave the list and the selection.
    pub fn remove_ids(&mut self, ids: &[String])
        ensures
            final(self).items@ == old(self).items@.filter(|f: File| !among(ids@, f.id@)),
            final(self).selected@ == old(self).selected@.filter(|s: String| !among(ids@, s@)),
            final(self).next == old(self).next,
            final(self).req == old(self).req,
    {
        drop_ids(&mut self.items, ids);
        let ghost items1 = self.items@;
        let ghost s0 = self.selected@;
        let ghost pred = |s: String| !among(ids@, s@);
        let mut rest: Vec<String> = Vec::new();
        std::mem::swap(&mut rest, &mut self.selected);
        let total = rest.len();
        let mut k: usize = 0;
        while rest.len() > 0
            invariant
                total == s0.len(),
                0 <= k <= s0.len(),
                rest@ == s0.subrange(k as int, s0.len() as int),
                self.selected@ == s0.take(k as int).filter(pred),
                pred == (|s: String| !among(ids@, s@)),
                self.items@ == items1,
                items1 == old(self).items@.filter(|f: File| !among(ids@, f.id@)),
                self.next == old(self).next,
                self.req == old(self).req,
            decreases rest@.len(),
        {
            let x = rest.remove(0);
            proof {
                assert(k < s0.len());
                assert(x == s0[k as int]);
                assert(s0.take(k + 1) == s0.take(k as int).push(x));
                s0.take(k as int).lemma_filter_push(x, pred);
            }
            let mut hit = false;
            let mut j: usize = 0;
            while j < ids.len()
                invariant
                    0 <= j <= ids@.len(),
                    hit == (exists|q: int| 0 <= q < j && (#[trigger] ids@[q])@ == x@),
                decreases ids@.len() - j,
            {
                if str_eq(ids[j].as_str(), x.as_str()) {
                    hit = true;
                }
                j += 1;
            }
            if !hit {
                self.selected.push(x);
            }
            k = k + 1;
            proof {
                assert(rest@ == s0.subrange(k as int, s0.len() as int));
            }
        }
        proof {
            assert(s0.take(k as int) == s0);
        }
    }

    /// Everything emptied (logging out, or the session ended).
    pub fn clear(&mut self)
        ensures
            final(self).items@.len() == 0,
            final(self).next is None,
            !final(self).loading,
            final(self).req == 0,
            final(self).fetched_at is None,
            final(self).selected@.len() == 0,
    {
        *self = PagedList::new();
    }

    /// Flips whether entry `id` is selected.
    pub fn toggle(&mut self, id: String)
        requires
            distinct_ids(old(self).selected@),
        ensures
            distinct_ids(final(self).selected@),
            forall|s: Seq<char>| #[trigger] has_id(final(self).selected@, s) <==> (if has_id(old(self).selected@, id@) {
                has_id(old(self).selected@, s) && s != id@
            } else {
                has_id(old(self).selected@, s) || s == id@
            }),
            final(self).items@ == old(self).items@,
    {
        if contains_id(self.selected.as_slice(), id.as_str()) {
            remove_id(&mut self.selected, id.as_str());
        } else {
            insert_id(&mut self.selected, id);
        }
    }

    /// Selects every listed entry (`on`), or none.
    pub fn select_all(&mut self, on: bool)
        ensures
            on ==> final(self).selected@.map_values(|s: String| s@) == old(self).items@.map_values(|f: File| f.id@),
            !on ==> final(self).selected@.len() == 0,
            final(self).items@ == old(self).items@,
    {
        if !on {
            self.selected = Vec::new();
            return;
        }
        let mut ids: Vec<String> = Vec::new();
        let mut i: usize = 0;
        while i < self.items.len()
            invariant
                0 <= i <= self.items@.len(),
                ids@.map_values(|s: String| s@) == self.items@.take(i as int).map_values(|f: File| f.id@),
            decreases self.items@.len() - i,
        {
            let ghost i0 = ids@;
            ids.push(self.items[i].id.clone());
            proof {
                assert(self.items@.take(i + 1) == self.items@.take(i as int).push(self.items@[i as int]));
                assert(ids@.map_values(|s: String| s@) =~= i0.map_values(|s: String| s@).push(self.items@[i as int].id@));
                assert(self.items@.take(i + 1).map_values(|f: File| f.id@) =~= self.items@.take(i as int).map_values(
                    |f: File| f.id@,
                ).push(self.items@[i as int].id@));
            }
            i += 1;
        }
        proof {
            assert(self.items@.take(i as int) == self.items@);
        }
        self.selected = ids;
    }

    /// Whether the "select all" box shows as ticked: something is listed and
    /// at least as many ids are selected.
    pub fn all_selected(&self) -> (b: bool)
        ensures
            b == (self.items@.len() > 0 && self.selected@.len() >= self.items@.len()),
    {
        self.items.len() > 0 && self.selected.len() >= self.items.len()
    }

    /// The selected entries, in list order.
    pub fn selected_ids(&self) -> (r: Vec<String>)
        ensures
            r@.map_values(|s: String| s@) == selected_in_order(self.items@, self.selected@),
    {
        selected_ids(self.items.as_slice(), self.selected.as_slice())
    }
}

/// The global search: its keyword, results and paging.
#[derive(Debug)]
pub struct Search {
    /// Whether the browser shows search results instead of the folder.
    pub active: bool,
    pub keyword: String,
    pub results: Vec<File>,
    pub next: Option<String>,
    pub loading: bool,
    /// Id of the current search; its later pages carry it too.
    pub req: u64,
}

/// A search request: keyword, page token, whether the page is added, id.
pub struct SearchAsk {
    pub keyword: String,
    pub token: Option<String>,
    pub append: bool,
    pub req_id: u64,
}

impl Search {
    /// No search.
    pub fn new() -> (s: Search)
        ensures
            !s.active && s.keyword@.len() == 0 && s.results@.len() == 0 && s.next is None && !s.loading && s.req
                == 0,
    {
        Search { active: false, keyword: String::new(), results: Vec::new(), next: None, loading: false, req: 0 }
    }

    /// Leaves search mode; the filter box is cleared by the caller.
    pub fn exit(&mut self)
        ensures
            !final(self).active,
            final(self).keyword@.len() == 0,
            final(self).results@.len() == 0,
            final(self).next is None,
            !final(self).loading,
            final(self).req == old(self).req,
    {
        self.active = false;
        self.keyword = String::new();
        self.results = Vec::new();
        self.next = None;
        self.loading = false;
    }

    /// Searches for the trimmed `filter`: a new search with a new id, or,
    /// for an empty keyword, leaving search mode.
    pub fn trigger(&mut self, filter: &str) -> (ask: Option<SearchAsk>)
        requires
            old(self).req < u64::MAX,
        ensures
            trim(filter@).len() == 0 ==> ask is None && !final(self).active && final(self).results@.len() == 0
                && final(self).req == old(self).req,
            trim(filter@).len() > 0 ==> {
                &&& final(self).active
                &&& final(self).keyword@ == trim(filter@)
                &&& final(self).results@.len() == 0
                &&& final(self).next is None
                &&& final(self).loading
                &&& final(self).req == old(self).req + 1
                &&& ask matches Some(a) && a.keyword@ == trim(filter@) && a.token is None && !a.append
                    && a.req_id == final(self).req
            },
    {
        let kw = trim_chars(&chars_of(filter));
        if kw.len() == 0 {
            self.exit();
            return None;
        }
        let keyword = string_from_chars(&kw);
        self.active = true;
        self.keyword = keyword.clone();
        self.results = Vec::new();
        self.next = None;
        self.loading = true;
        self.req = self.req + 1;
        Some(SearchAsk { keyword, token: None, append: false, req_id: self.req })
    }

    /// Asks for the next page of results, unless one is loading or there is none.
    pub fn load_more(&mut self) -> (ask: Option<SearchAsk>)
        ensures
            (old(self).loading || old(self).next is None) ==> ask is None && final(self).loading == old(self).loading,
            !(old(self).loading || old(self).next is None) ==> final(self).loading && (ask matches Some(a)
                && a.keyword@ == old(self).keyword@ && a.token == old(self).next && a.append && a.req_id
                == old(self).req),
            final(self).req == old(self).req,
            final(self).results@ == old(self).results@,
    {
        if self.loading || self.next.is_none() {
            return None;
        }
        self.loading = true;
        let token = match &self.next {
            Some(t) => Some(t.clone()),
            None => None,
        };
        Some(SearchAsk { keyword: self.keyword.clone(), token, append: true, req_id: self.req })
    }

    /// Results for search `req_id`: dropped unless it is the current search;
    /// a first page replaces the results, a later one adds the new files.
    pub fn answer(&mut self, req_id: u64, page: FileList, append: bool) -> (taken: bool)
        ensures
            taken == (req_id == old(self).req),
            !taken ==> final(self).results@ == old(self).results@ && final(self).next == old(self).next
                && final(self).loading == old(self).loading,
            taken ==> final(self).results@ == merged(old(self).results@, page.files@, append)
                && final(self).next == page.next_page_token && !final(self).loading,
            final(self).req == old(self).req,
    {
        if req_id != self.req {
            return false;
        }
        self.loading = false;
        self.next = page.next_page_token;
        merge_listing(&mut self.results, page.files, append);
        true
    }
}

/// The label of the drive's root in a path of crumbs.
pub open spec fn root_label() -> Seq<char> {
    "我的云盘"@
}

/// A dialog that picks a drive folder (where an offline download or a saved
/// share goes): the path walked so far and the subfolders of its last step.
#[derive(Debug)]
pub struct FolderPicker {
    pub open: bool,
    /// The path from the root: (folder id, label); the root has no id.
    pub stack: Vec<(Option<String>, String)>,
    /// Subfolders of the last folder of the path.
    pub folders: Vec<File>,
    pub loading: bool,
    /// Id of the last listing request.
    pub req: u64,
}

/// A request for the subfolders of `parent`.
pub struct FolderAsk {
    pub parent: Option<String>,
    pub req_id: u64,
}

/// The folder a path of crumbs ends in (`None` is the root, or an empty path).
pub open spec fn path_end(stack: Seq<(Option<String>, String)>) -> Option<Seq<char>> {
    if stack.len() == 0 {
        None
    } else {
        opt_view(stack.last().0)
    }
}

impl FolderPicker {
    /// A closed picker at the root.
    pub fn new() -> (p: FolderPicker)
        ensures
            !p.open,
            p.stack@.len() == 1 && p.stack@[0].0 is None && p.stack@[0].1@ == root_label(),
            p.folders@.len() == 0,
            !p.loading,
            p.req == 0,
    {
        FolderPicker { open: false, stack: vec![(None, "我的云盘".to_owned())], folders: Vec::new(), loading: false, req: 0 }
    }

    /// The folder the picker shows.
    pub fn parent(&self) -> (r: Option<String>)
        ensures
            opt_view(r) == path_end(self.stack@),
    {
        let n = self.stack.len();
        if n == 0 {
            None
        } else {
            match &self.stack[n - 1].0 {
                Some(id) => Some(id.clone()),
                None => None,
            }
        }
    }

    /// Asks for the subfolders of the folder shown, with a new request id.
    pub fn list(&mut self) -> (ask: FolderAsk)
        requires
            old(self).req < u64::MAX,
        ensures
            final(self).loading,
            final(self).folders@.len() == 0,
            final(self).req == old(self).req + 1,
            final(self).stack@ == old(self).stack@,
            final(self).open == old(self).open,
            ask.req_id == final(self).req,
            opt_view(ask.parent) == path_end(old(self).stack@),
    {
        self.loading = true;
        self.folders = Vec::new();
        self.req = self.req + 1;
        FolderAsk { parent: self.parent(), req_id: self.req }
    }

    /// Opens the picker at the root.
    pub fn open_at_root(&mut self) -> (ask: FolderAsk)
        requires
            old(self).req < u64::MAX,
        ensures
            final(self).open,
            final(self).stack@.len() == 1 && final(self).stack@[0].0 is None && final(self).stack@[0].1@
                == root_label(),
            final(self).loading,
            final(self).folders@.len() == 0,
            final(self).req == old(self).req + 1,
            ask.parent is None && ask.req_id == final(self).req,
    {
        self.open = true;
        self.stack = vec![(None, "我的云盘".to_owned())];
        self.list()
    }

    /// Goes back to crumb `i` of the path.
    pub fn crumb(&mut self, i: usize) -> (ask: FolderAsk)
        requires
            old(self).req < u64::MAX,
        ensures
            final(self).stack@ == (if i + 1 < old(self).stack@.len() {
                old(self).stack@.take(i + 1)
            } else {
                old(self).stack@
            }),
            final(self).loading,
            final(self).folders@.len() == 0,
            final(self).req == old(self).req + 1,
            ask.req_id == final(self).req,
            opt_view(ask.parent) == path_end(final(self).stack@),
            final(self).open == old(self).open,
    {
        if i < self.stack.len() {
            self.stack.truncate(i + 1);
        }
        self.list()
    }

    /// Steps into subfolder `id` named `name`.
    pub fn enter(&mut self, id: String, name: String) -> (ask: FolderAsk)
        requires
            old(self).req < u64::MAX,
        ensures
            final(self).stack@ == old(self).stack@.push((Some(id), name)),
            final(self).loading,
            final(self).folders@.len() == 0,
            final(self).req == old(self).req + 1,
            ask.req_id == final(self).req,
            opt_view(ask.parent) == Some(id@),
            final(self).open == old(self).open,
    {
        self.stack.push((Some(id), name));
        let ask = self.list();
        proof {
            assert(path_end(self.stack@) == Some(id@));
        }
        ask
    }

    /// Takes the folder shown as the destination (id, label) and closes the
    /// picker; the root is no destination.
    pub fn confirm(&mut self) -> (dest: Option<(String, String)>)
        ensures
            !final(self).open,
            final(self).stack@ == old(self).stack@,
            match dest {
                Some(d) => old(self).stack@.len() > 0 && old(self).stack@.last().0 == Some(d.0)
                    && old(self).stack@.last().1 == d.1,
                None => old(self).stack@.len() == 0 || old(self).stack@.last().0 is None,
            },
    {
        self.open = false;
        let n = self.stack.len();
        if n == 0 {
            return None;
        }
        match &self.stack[n - 1].0 {
            Some(id) => Some((id.clone(), self.stack[n - 1].1.clone())),
            None => None,
        }
    }

    /// Takes the folder shown as the destination and closes the picker; the
    /// root counts too, with an empty id (so it is told apart from no choice).
    pub fn confirm_any(&mut self) -> (dest: (String, String))
        ensures
            !final(self).open,
            final(self).stack@ == old(self).stack@,
            old(self).stack@.len() == 0 ==> dest.0@.len() == 0 && dest.1@ == root_label(),
            old(self).stack@.len() > 0 ==> dest.1 == old(self).stack@.last().1 && dest.0@ == match old(
                self,
            ).stack@.last().0 {
                Some(id) => id@,
                None => Seq::<char>::empty(),
            },
    {
        self.open = false;
        let n = self.stack.len();
        if n == 0 {
            return (String::new(), "我的云盘".to_owned());
        }
        let id = match &self.stack[n - 1].0 {
            Some(id) => id.clone(),
            None => String::new(),
        };
        (id, self.stack[n - 1].1.clone())
    }

    /// Back to a closed picker at the root, keeping the request counter.
    pub fn reset(&mut self)
        ensures
            !final(self).open,
            final(self).stack@.len() == 1 && final(self).stack@[0].0 is None && final(self).stack@[0].1@
                == root_label(),
            final(self).folders@.len() == 0,
            !final(self).loading,
            final(self).req == old(self).req,
    {
        self.open = false;
        self.stack = vec![(None, "我的云盘".to_owned())];
        self.folders = Vec::new();
        self.loading = false;
    }

    /// Subfolders of `parent` for request `req_id`: taken only for the last
    /// request and the folder still shown.
    pub fn answer(&mut self, parent: &Option<String>, req_id: u64, files: Vec<File>) -> (taken: bool)
        ensures
            taken == (req_id == old(self).req && opt_view(*parent) == path_end(old(self).stack@)),
            taken ==> final(self).folders@ == files@ && !final(self).loading,
            !taken ==> final(self).folders@ == old(self).folders@ && final(self).loading == old(self).loading,
            final(self).stack@ == old(self).stack@,
            final(self).req == old(self).req,
            final(self).open == old(self).open,
    {
        if req_id != self.req {
            return false;
        }
        let cur = self.parent();
        let same = match (&cur, parent) {
            (Some(a), Some(b)) => str_eq(a.as_str(), b.as_str()),
            (None, None) => true,
            _ => false,
        };
        if !same {
            return false;
        }
        self.loading = false;
        self.folders = files;
        true
    }
}

/// Hands a subfolder listing to the picker that asked for it: the
/// save-share picker while it is open and the id is its last one, else the
/// offline-download picker. Returns whether a picker took it.
pub fn route_folders(
    save_share: &mut FolderPicker,
    offline: &mut FolderPicker,
    parent: &Option<String>,
    req_id: u64,
    files: Vec<File>,
) -> (taken: bool)
    ensures
        old(save_share).open && req_id == old(save_share).req ==> {
            &&& taken == (opt_view(*parent) == path_end(old(save_share).stack@))
            &&& taken ==> final(save_share).folders@ == files@ && !final(save_share).loading
            &&& !taken ==> final(save_share).folders@ == old(save_share).folders@
                && final(save_share).loading == old(save_share).loading
            &&& final(offline).folders@ == old(offline).folders@ && final(offline).loading == old(offline).loading
        },
        !(old(save_share).open && req_id == old(save_share).req) ==> {
            &&& taken == (req_id == old(offline).req && opt_view(*parent) == path_end(old(offline).stack@))
            &&& taken ==> final(offline).folders@ == files@ && !final(offline).loading
            &&& !taken ==> final(offline).folders@ == old(offline).folders@
                && final(offline).loading == old(offline).loading
            &&& final(save_share).folders@ == old(save_share).folders@
                && final(save_share).loading == old(save_share).loading
        },
        final(save_share).stack@ == old(save_share).stack@ && final(save_share).req == old(save_share).req
            && final(save_share).open == old(save_share).open,
        final(offline).stack@ == old(offline).stack@ && final(offline).req == old(offline).req
            && final(offline).open == old(offline).open,
{
    if save_share.open && req_id == save_share.req {
        save_share.answer(parent, req_id, files)
    } else {
        offline.answer(parent, req_id, files)
    }
}

/// The details line of a trash entry: "文件夹" or its size, then when it
/// was deleted (else last changed, else made), when known.
pub open spec fn trash_meta_text(f: File) -> Seq<char> {
    let head = if contains(f.kind@, "folder"@) {
        "文件夹"@
    } else {
        size_text(f.size as int)
    };
    let t = match f.delete_time {
        Some(t) => Some(t),
        None => match f.modified_time {
            Some(t) => Some(t),
            None => f.created_time,
        },
    };
    match t {
        Some(t) => head + " · "@ + iso_minutes(t@),
        None => head,
    }
}

/// The details line of a trash entry.
pub fn trash_meta(f: &File) -> (r: String)
    ensures
        r@ == trash_meta_text(*f),
{
    let mut out: Vec<char> = Vec::new();
    if f.is_folder() {
        push_str(&mut out, "文件夹");
    } else {
        let b = fmt_bytes(f.size);
        push_str(&mut out, b.as_str());
    }
    let t = match &f.delete_time {
        Some(t) => Some(t),
        None => match &f.modified_time {
            Some(t) => Some(t),
            None => match &f.created_time {
                Some(t) => Some(t),
                None => None,
            },
        },
    };
    if let Some(t) = t {
        push_str(&mut out, " · ");
        let ft = fmt_time(t.as_str());
        push_str(&mut out, ft.as_str());
    }
    string_from_chars(&out)
}

} // verus!
