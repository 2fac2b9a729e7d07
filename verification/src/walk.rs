//! Walking a drive folder tree for a whole-folder download.
//!
//! The walk is breadth first: folders are listed page by page in the order
//! they were found, each folder id at most once (so a cycle in the listing
//! cannot make the walk loop), and the number of files is bounded. Fetching a
//! page is the caller's job: it asks `next_request` which folder and page to
//! list, fetches it, and hands it to `feed`.

use vstd::prelude::*;

use crate::error::Error;
use crate::text::{contains, push_dec, push_str, str_eq, string_from_chars};
use crate::types::{opt_view, File, FileList, FolderWalk};

verus! {

/// Most files a walk may collect.
pub const WALK_MAX_FILES: usize = 20_000;
/// Page size to list folders with.
pub const WALK_PAGE_SIZE: usize = 100;

/// Views of a list of strings.
pub open spec fn sv(v: Seq<String>) -> Seq<Seq<char>> {
    v.map_values(|s: String| s@)
}

/// The walk as it stands: directories found (as component paths), files
/// collected (with their directory), folder ids seen, and folders waiting to
/// be listed (id and path).
pub struct WalkState {
    pub dirs: Seq<Seq<Seq<char>>>,
    pub files: Seq<(Seq<Seq<char>>, File)>,
    pub seen: Seq<Seq<char>>,
    pub pending: Seq<(Seq<char>, Seq<Seq<char>>)>,
}

/// What one listed entry of the folder at `rel` does to the walk: a folder
/// not seen before is recorded and queued; a file is collected, unless the
/// file limit is reached, which ends the walk with an error (`None`).
pub open spec fn walk_step(st: WalkState, rel: Seq<Seq<char>>, f: File) -> Option<WalkState> {
    if contains(f.kind@, "folder"@) {
        if st.seen.contains(f.id@) {
            Some(st)
        } else {
            let child = rel.push(f.name@);
            Some(
                WalkState {
                    dirs: st.dirs.push(child),
                    seen: st.seen.push(f.id@),
                    pending: st.pending.push((f.id@, child)),
                    ..st
                },
            )
        }
    } else if st.files.len() >= WALK_MAX_FILES {
        None
    } else {
        Some(WalkState { files: st.files.push((rel, f)), ..st })
    }
}

/// The walk after the entries `fs` of one page of the folder at `rel`, in order.
pub open spec fn walk_page(st: WalkState, rel: Seq<Seq<char>>, fs: Seq<File>) -> Option<WalkState>
    decreases fs.len(),
{
    if fs.len() == 0 {
        Some(st)
    } else {
        match walk_page(st, rel, fs.drop_last()) {
            Some(s2) => walk_step(s2, rel, fs.last()),
            None => None,
        }
    }
}

/// What the walk keeps true: folder ids are seen once, every queued folder
/// was seen, and the file limit holds.
pub open spec fn walk_ok(st: WalkState) -> bool {
    &&& st.seen.no_duplicates()
    &&& forall|i: int| 0 <= i < st.pending.len() ==> st.seen.contains(#[trigger] st.pending[i].0)
    &&& st.files.len() <= WALK_MAX_FILES
}

/// Listing a folder's entries keeps the walk's invariant.
pub proof fn lemma_walk_page_ok(st: WalkState, rel: Seq<Seq<char>>, fs: Seq<File>)
    requires
        walk_ok(st),
    ensures
        walk_page(st, rel, fs) matches Some(s2) ==> walk_ok(s2),
    decreases fs.len(),
{
    if fs.len() > 0 {
        lemma_walk_page_ok(st, rel, fs.drop_last());
        match walk_page(st, rel, fs.drop_last()) {
            Some(s2) => {
                let f = fs.last();
                if contains(f.kind@, "folder"@) && !s2.seen.contains(f.id@) {
                    let s3 = walk_step(s2, rel, f).unwrap();
                    assert forall|i: int| 0 <= i < s3.pending.len() implies s3.seen.contains(
                        #[trigger] s3.pending[i].0,
                    ) by {
                        if i < s2.pending.len() {
                            assert(s3.pending[i] == s2.pending[i]);
                            let k = choose|k: int| 0 <= k < s2.seen.len() && s2.seen[k] == s2.pending[i].0;
                            assert(s3.seen[k] == s2.seen[k]);
                        } else {
                            assert(s3.seen[s3.seen.len() - 1] == f.id@);
                        }
                    }
                    assert(s3.seen.no_duplicates()) by {
                        assert forall|a: int, b: int| 0 <= a < b < s3.seen.len() implies s3.seen[a]
                            != s3.seen[b] by {
                            if b == s3.seen.len() - 1 {
                                assert(s3.seen[a] == s2.seen[a]);
                            }
                        }
                    }
                }
            },
            None => {},
        }
    }
}

/// The shape of a walk's result: the root (the empty path) is the first
/// directory, every collected file sits in a recorded directory and is no
/// folder, and every queued folder's path is recorded.
pub open spec fn walk_shape(st: WalkState) -> bool {
    &&& st.dirs.len() > 0
    &&& st.dirs[0] == Seq::<Seq<char>>::empty()
    &&& forall|i: int| 0 <= i < st.files.len() ==> st.dirs.contains(#[trigger] st.files[i].0)
        && !contains(st.files[i].1.kind@, "folder"@)
    &&& forall|i: int| 0 <= i < st.pending.len() ==> st.dirs.contains(#[trigger] st.pending[i].1)
}

/// Listing a recorded folder's entries keeps the walk's shape, and only adds
/// directories.
pub proof fn lemma_walk_page_shape(st: WalkState, rel: Seq<Seq<char>>, fs: Seq<File>)
    requires
        walk_shape(st),
        st.dirs.contains(rel),
    ensures
        walk_page(st, rel, fs) matches Some(s2) ==> walk_shape(s2) && s2.dirs.len() >= st.dirs.len()
            && s2.dirs.take(st.dirs.len() as int) == st.dirs,
    decreases fs.len(),
{
    if fs.len() > 0 {
        lemma_walk_page_shape(st, rel, fs.drop_last());
        match walk_page(st, rel, fs.drop_last()) {
            Some(s2) => {
                let f = fs.last();
                assert(s2.dirs.contains(rel)) by {
                    let k = choose|k: int| 0 <= k < st.dirs.len() && st.dirs[k] == rel;
                    assert(s2.dirs.take(st.dirs.len() as int)[k] == rel);
                    assert(s2.dirs[k] == rel);
                }
                match walk_step(s2, rel, f) {
                    Some(s3) => {
                        if contains(f.kind@, "folder"@) && !s2.seen.contains(f.id@) {
                            let child = rel.push(f.name@);
                            assert(s3.dirs == s2.dirs.push(child));
                            assert(s3.dirs[0] == s2.dirs[0]);
                            assert forall|i: int| 0 <= i < s3.files.len() implies s3.dirs.contains(
                                #[trigger] s3.files[i].0,
                            ) && !contains(s3.files[i].1.kind@, "folder"@) by {
                                let k = choose|k: int| 0 <= k < s2.dirs.len() && s2.dirs[k] == s2.files[i].0;
                                assert(s3.dirs[k] == s2.dirs[k]);
                            }
                            assert forall|i: int| 0 <= i < s3.pending.len() implies s3.dirs.contains(
                                #[trigger] s3.pending[i].1,
                            ) by {
                                if i < s2.pending.len() {
                                    assert(s3.pending[i] == s2.pending[i]);
                                    let k = choose|k: int| 0 <= k < s2.dirs.len() && s2.dirs[k] == s2.pending[i].1;
                                    assert(s3.dirs[k] == s2.dirs[k]);
                                } else {
                                    assert(s3.dirs[s2.dirs.len() as int] == child);
                                }
                            }
                            assert(s3.dirs.take(st.dirs.len() as int) == s2.dirs.take(st.dirs.len() as int));
                        } else if !contains(f.kind@, "folder"@) {
                            assert forall|i: int| 0 <= i < s3.files.len() implies s3.dirs.contains(
                                #[trigger] s3.files[i].0,
                            ) && !contains(s3.files[i].1.kind@, "folder"@) by {
                                if i < s2.files.len() {
                                    assert(s3.files[i] == s2.files[i]);
                                }
                            }
                        }
                    },
                    None => {},
                }
            },
            None => {},
        }
    }
}

proof fn lemma_walk_page_none_extends(st: WalkState, rel: Seq<Seq<char>>, fs: Seq<File>, k: int)
    requires
        0 <= k <= fs.len(),
        walk_page(st, rel, fs.take(k)) is None,
    ensures
        walk_page(st, rel, fs) is None,
    decreases fs.len(),
{
    if fs.len() == k {
        assert(fs.take(k) == fs);
    } else {
        assert(fs.drop_last().take(k) == fs.take(k));
        lemma_walk_page_none_extends(st, rel, fs.drop_last(), k);
    }
}

/// A breadth-first walk of a drive folder, driven by the caller's fetches.
pub struct FolderWalker {
    walk: FolderWalk,
    seen: Vec<String>,
    queue: Vec<(String, Vec<String>)>,
    head: usize,
    current: Option<(String, Vec<String>)>,
    token: Option<String>,
}

/// Views of the queued folders.
pub open spec fn queue_view(q: Seq<(String, Vec<String>)>) -> Seq<(Seq<char>, Seq<Seq<char>>)> {
    q.map_values(|e: (String, Vec<String>)| (e.0@, sv(e.1@)))
}

impl FolderWalker {
    /// The walk so far.
    pub closed spec fn state(&self) -> WalkState {
        WalkState {
            dirs: self.walk.dirs@.map_values(|d: Vec<String>| sv(d@)),
            files: self.walk.files@.map_values(|e: (Vec<String>, File)| (sv(e.0@), e.1)),
            seen: sv(self.seen@),
            pending: queue_view(self.queue@).skip(self.head as int),
        }
    }

    /// The folder being listed (id and path), if any.
    pub closed spec fn current(&self) -> Option<(Seq<char>, Seq<Seq<char>>)> {
        match self.current {
            Some(c) => Some((c.0@, sv(c.1@))),
            None => None,
        }
    }

    /// The token of the next page of the current folder.
    pub closed spec fn token(&self) -> Option<Seq<char>> {
        opt_view(self.token)
    }

    pub closed spec fn wf(&self) -> bool {
        &&& self.head <= self.queue@.len()
        &&& walk_ok(self.state())
        &&& walk_shape(self.state())
        &&& self.current() matches Some(c) ==> self.state().dirs.contains(c.1)
    }

    /// Starts a walk of the folder `folder_id` (trimmed); an empty id is an error.
    pub fn new(folder_id: &str) -> (r: Result<FolderWalker, Error>)
        ensures
            match r {
                Ok(w) => {
                    &&& w.wf()
                    &&& crate::text::trim(folder_id@).len() > 0
                    &&& w.state() == WalkState {
                        dirs: seq![Seq::<Seq<char>>::empty()],
                        files: Seq::empty(),
                        seen: seq![crate::text::trim(folder_id@)],
                        pending: seq![(crate::text::trim(folder_id@), Seq::<Seq<char>>::empty())],
                    }
                    &&& w.current() is None
                },
                Err(_) => crate::text::trim(folder_id@).len() == 0,
            },
    {
        let t = crate::text::trim_chars(&crate::text::chars_of(folder_id));
        if t.len() == 0 {
            return Err(Error::Msg("目录 ID 为空".to_owned()));
        }
        let root = string_from_chars(&t);
        let mut dirs: Vec<Vec<String>> = Vec::new();
        dirs.push(Vec::new());
        let mut seen: Vec<String> = Vec::new();
        seen.push(root.clone());
        let mut queue: Vec<(String, Vec<String>)> = Vec::new();
        queue.push((root, Vec::new()));
        let w = FolderWalker {
            walk: FolderWalk { dirs, files: Vec::new() },
            seen,
            queue,
            head: 0,
            current: None,
            token: None,
        };
        proof {
            let st = w.state();
            assert(sv(w.walk.dirs@[0]@) =~= Seq::<Seq<char>>::empty());
            assert(sv(w.queue@[0].1@) =~= Seq::<Seq<char>>::empty());
            assert(st.dirs =~= seq![Seq::<Seq<char>>::empty()]);
            assert(st.files =~= Seq::empty());
            assert(st.seen =~= seq![t@]);
            assert(st.pending =~= seq![(t@, Seq::<Seq<char>>::empty())]);
            assert(st.seen[0] == st.pending[0].0);
            assert(st.seen.contains(st.pending[0].0));
        }
        Ok(w)
    }

    /// The page to fetch next: the current folder's next page, else the first
    /// page of the next queued folder; `None` when the walk is complete.
    pub fn next_request(&mut self) -> (r: Option<(String, Option<String>)>)
        requires
            old(self).wf(),
        ensures
            final(self).wf(),
            match old(self).current() {
                Some(c) => {
                    &&& final(self).state() == old(self).state()
                    &&& final(self).current() == old(self).current()
                    &&& final(self).token() == old(self).token()
                    &&& r matches Some(q) && q.0@ == c.0 && opt_view(q.1) == old(self).token()
                },
                None => if old(self).state().pending.len() > 0 {
                    &&& final(self).state() == WalkState {
                        pending: old(self).state().pending.drop_first(),
                        ..old(self).state()
                    }
                    &&& final(self).current() == Some(old(self).state().pending[0])
                    &&& final(self).token() is None
                    &&& r matches Some(q) && q.0@ == old(self).state().pending[0].0 && q.1 is None
                } else {
                    &&& final(self).state() == old(self).state()
                    &&& final(self).current() is None
                    &&& r is None
                },
            },
    {
        match &self.current {
            Some(c) => {
                let id = c.0.clone();
                let tok = match &self.token {
                    Some(t) => Some(t.clone()),
                    None => None,
                };
                return Some((id, tok));
            },
            None => {},
        }
        if self.head < self.queue.len() {
            let ghost before = self.state();
            let id = self.queue[self.head].0.clone();
            let rel = clone_strings(&self.queue[self.head].1);
            self.current = Some((id.clone(), rel));
            self.token = None;
            self.head = self.head + 1;
            proof {
                let q = queue_view(self.queue@);
                assert(q.skip(self.head as int) =~= q.skip(self.head - 1).drop_first());
                assert(self.state().pending =~= before.pending.drop_first());
                assert forall|i: int| 0 <= i < self.state().pending.len() implies self.state().seen.contains(
                    #[trigger] self.state().pending[i].0,
                ) by {
                    assert(self.state().pending[i] == before.pending[i + 1]);
                }
                assert forall|i: int| 0 <= i < self.state().pending.len() implies self.state().dirs.contains(
                    #[trigger] self.state().pending[i].1,
                ) by {
                    assert(self.state().pending[i] == before.pending[i + 1]);
                }
                assert(before.pending[0] == q[self.head - 1]);
                assert(self.current() == Some(before.pending[0]));
                assert(before.dirs.contains(before.pending[0].1));
                assert(walk_shape(self.state()));
            }
            Some((id, None))
        } else {
            None
        }
    }

    /// Takes in a fetched page of the current folder: entries are processed in
    /// order (see `walk_step`); the folder is done when the page has no next
    /// token. Fails when the file limit is exceeded.
    pub fn feed(&mut self, page: FileList) -> (r: Result<(), Error>)
        requires
            old(self).wf(),
            old(self).current() is Some,
        ensures
            match walk_page(old(self).state(), old(self).current().unwrap().1, page.files@) {
                Some(s2) => {
                    &&& r is Ok
                    &&& final(self).wf()
                    &&& final(self).state() == s2
                    &&& final(self).token() == opt_view(page.next_page_token)
                    &&& final(self).current() == if page.next_page_token is Some {
                        old(self).current()
                    } else {
                        None
                    }
                },
                None => r is Err,
            },
    {
        let ghost st0 = self.state();
        let ghost fs0 = page.files@;
        let n0 = page.files.len();
        let rel = match &self.current {
            Some(c) => clone_strings(&c.1),
            None => Vec::new(),
        };
        let mut files = page.files;
        let mut i: usize = 0;
        while files.len() > 0
            invariant
                fs0.len() == i + files@.len(),
                fs0.len() == n0,
                st0 == old(self).state(),
                fs0 == page.files@,
                files@ == fs0.skip(i as int),
                self.head <= self.queue@.len(),
                self.current == old(self).current,
                self.token == old(self).token,
                sv(rel@) == old(self).current().unwrap().1,
                walk_page(st0, sv(rel@), fs0.take(i as int)) == Some(self.state()),
                walk_ok(self.state()),
            decreases files@.len(),
        {
            let f = files.remove(0);
            proof {
                assert(fs0.take(i + 1).drop_last() == fs0.take(i as int));
                assert(fs0.take(i + 1).last() == f);
            }
            let ok = self.take_entry(&rel, f);
            if !ok {
                proof {
                    assert(walk_page(st0, sv(rel@), fs0.take(i + 1)) is None);
                    lemma_walk_page_none_extends(st0, sv(rel@), fs0, i + 1);
                }
                let mut msg: Vec<char> = Vec::new();
                push_str(&mut msg, "目录内文件过多(超过 ");
                push_dec(&mut msg, WALK_MAX_FILES as u64);
                push_str(&mut msg, " 个), 暂不支持整目录下载");
                return Err(Error::Msg(string_from_chars(&msg)));
            }
            i += 1;
        }
        assert(fs0.take(i as int) == fs0);
        proof {
            lemma_walk_page_shape(st0, sv(rel@), fs0);
            let s2 = self.state();
            assert(s2.dirs.contains(sv(rel@))) by {
                let k = choose|k: int| 0 <= k < st0.dirs.len() && st0.dirs[k] == sv(rel@);
                assert(s2.dirs.take(st0.dirs.len() as int)[k] == sv(rel@));
            }
        }
        match page.next_page_token {
            Some(t) => {
                self.token = Some(t);
            },
            None => {
                self.token = None;
                self.current = None;
            },
        }
        Ok(())
    }

    /// Processes one entry of the folder at `rel`; false when the file limit
    /// stops the walk.
    fn take_entry(&mut self, rel: &Vec<String>, f: File) -> (ok: bool)
        requires
            old(self).head <= old(self).queue@.len(),
            walk_ok(old(self).state()),
        ensures
            final(self).head <= final(self).queue@.len(),
            final(self).current == old(self).current,
            final(self).token == old(self).token,
            match walk_step(old(self).state(), sv(rel@), f) {
                Some(s2) => ok && final(self).state() == s2 && walk_ok(s2),
                None => !ok,
            },
    {
        let ghost st = self.state();
        let ghost relv = sv(rel@);
        proof {
            lemma_walk_page_ok(st, relv, seq![f]);
            assert(seq![f].drop_last() =~= Seq::<File>::empty());
            assert(seq![f].last() == f);
            assert(walk_page(st, relv, Seq::<File>::empty()) == Some(st));
            assert(walk_page(st, relv, seq![f]) == walk_step(st, relv, f));
        }
        if f.is_folder() {
            if self.has_seen(f.id.as_str()) {
                return true;
            }
            let mut child = clone_strings(rel);
            child.push(f.name.clone());
            let id = f.id.clone();
            let ghost qv = queue_view(self.queue@);
            self.seen.push(id.clone());
            self.walk.dirs.push(clone_strings(&child));
            self.queue.push((id, child));
            proof {
                let s3 = self.state();
                assert(sv(child@) == relv.push(f.name@));
                assert(s3.dirs =~= st.dirs.push(relv.push(f.name@)));
                assert(s3.seen =~= st.seen.push(f.id@));
                assert(queue_view(self.queue@) =~= qv.push((f.id@, relv.push(f.name@))));
                assert(s3.pending =~= st.pending.push((f.id@, relv.push(f.name@))));
                assert(s3.files =~= st.files);
                assert(s3 == walk_step(st, relv, f).unwrap());
            }
            true
        } else {
            if self.walk.files.len() >= WALK_MAX_FILES {
                return false;
            }
            let r = clone_strings(rel);
            self.walk.files.push((r, f));
            proof {
                let s3 = self.state();
                assert(s3.files =~= st.files.push((relv, f)));
                assert(s3.dirs =~= st.dirs);
                assert(s3.seen =~= st.seen);
                assert(s3.pending =~= st.pending);
                assert(s3 == walk_step(st, relv, f).unwrap());
            }
            true
        }
    }

    fn has_seen(&self, id: &str) -> (b: bool)
        ensures
            b == self.state().seen.contains(id@),
    {
        let mut i: usize = 0;
        while i < self.seen.len()
            invariant
                0 <= i <= self.seen@.len(),
                forall|j: int| 0 <= j < i ==> self.seen@[j]@ != id@,
            decreases self.seen@.len() - i,
        {
            if str_eq(self.seen[i].as_str(), id) {
                assert(self.state().seen[i as int] == id@);
                return true;
            }
            i += 1;
        }
        assert forall|j: int| 0 <= j < self.state().seen.len() implies self.state().seen[j] != id@ by {
            assert(self.state().seen[j] == self.seen@[j]@);
        }
        false
    }

    /// The walk's result.
    pub fn finish(self) -> (w: FolderWalk)
        requires
            self.wf(),
        ensures
            walk_ok(self.state()),
            walk_shape(self.state()),
            w.dirs@.map_values(|d: Vec<String>| sv(d@)) == self.state().dirs,
            w.files@.map_values(|e: (Vec<String>, File)| (sv(e.0@), e.1)) == self.state().files,
    {
        self.walk
    }
}

/// A copy of a list of strings.
fn clone_strings(v: &Vec<String>) -> (r: Vec<String>)
    ensures
        sv(r@) == sv(v@),
{
    let mut r: Vec<String> = Vec::new();
    let mut i: usize = 0;
    while i < v.len()
        invariant
            0 <= i <= v@.len(),
            sv(r@) == sv(v@).take(i as int),
        decreases v@.len() - i,
    {
        r.push(v[i].clone());
        i += 1;
        assert(sv(v@).take(i as int) == sv(v@).take(i - 1).push(v@[i - 1]@));
    }
    assert(sv(v@).take(v@.len() as int) == sv(v@));
    r
}

} // verus!
