//! User settings and the download / upload history lists.
//!
//! Reading and writing the files is the caller's business; this module keeps
//! the rules for how the lists change: the newest record goes first, at most
//! `HISTORY_LIMIT` records are kept, and a removal takes out the newest match.

use vstd::prelude::*;

use crate::paths::{path_eq, same_path};
use crate::text::str_eq;

verus! {

/// How many records each history list keeps.
pub const HISTORY_LIMIT: usize = 200;

#[derive(Debug, Clone, Default)]
pub struct Settings {
    pub username: String,
    /// The local download directory chosen last time (may be empty).
    pub download_dir: String,
    /// Whether the password is kept in the system keyring for automatic login.
    pub remember_password: bool,
}

/// Outcome of a finished download (only finished ones are recorded).
#[derive(Debug, Clone, PartialEq)]
pub enum DownloadRecordStatus {
    Done,
    Cancelled,
    Failed(String),
}

/// A node of a folder download, kept inline in the folder's record.
#[derive(Debug, Clone)]
pub struct DownloadChildRecord {
    pub file_id: String,
    pub name: String,
    /// For a file: its target directory; for a directory: its local path.
    pub dir: String,
    pub total: u64,
    pub done: u64,
    /// A file's outcome; directories always hold `Done`.
    pub status: DownloadRecordStatus,
    /// When it finished or failed (unix seconds).
    pub at: u64,
    pub is_dir: bool,
    /// Depth below the folder card: the card is 0, its direct children 1.
    pub depth: u32,
}

/// One entry of the download history.
#[derive(Debug, Clone)]
pub struct DownloadRecord {
    /// Drive id of the file (or folder); old records may lack it.
    pub file_id: String,
    pub name: String,
    pub dir: String,
    pub total: u64,
    pub done: u64,
    pub status: DownloadRecordStatus,
    /// When it finished or failed (unix seconds).
    pub at: u64,
    /// ISO 8601 time stamp; also the record's unique id.
    pub timestamp: String,
    pub is_folder: bool,
    /// Snapshot of a folder download's nodes (folder records only).
    pub children: Vec<DownloadChildRecord>,
}

/// Outcome of a finished upload.
#[derive(Debug, Clone)]
pub enum UploadRecordStatus {
    Done,
    Failed(String),
}

/// One entry of the upload history.
#[derive(Debug, Clone)]
pub struct UploadRecord {
    pub local_path: String,
    pub name: String,
    /// Target folder in the drive (`None` is the root).
    pub parent: Option<String>,
    /// The target folder's breadcrumb, as (id, label) pairs.
    pub dest_stack: Vec<(Option<String>, String)>,
    pub total: u64,
    pub done: u64,
    pub status: UploadRecordStatus,
    /// Whether a whole directory was uploaded.
    pub is_dir: bool,
    /// When it finished or failed (unix seconds).
    pub at: u64,
    /// Unique id (a nanosecond time stamp).
    pub timestamp: String,
}

/// A history after `r` is added: `r` first, then the old records, cut to the limit.
pub open spec fn appended<T>(h: Seq<T>, r: T) -> Seq<T> {
    let n = seq![r] + h;
    if n.len() > HISTORY_LIMIT {
        n.take(HISTORY_LIMIT as int)
    } else {
        n
    }
}

/// `s` without the element at `idx`, if any.
pub open spec fn without<T>(s: Seq<T>, idx: Option<int>) -> Seq<T> {
    match idx {
        Some(i) => s.remove(i),
        None => s,
    }
}

/// Whether a download record is the one a removal asks for: by its id when one
/// is given; otherwise by drive id when both sides have one, else by name and
/// directory.
pub open spec fn download_matches(
    r: DownloadRecord,
    rec_id: Seq<char>,
    file_id: Seq<char>,
    name: Seq<char>,
    dir: Seq<char>,
) -> bool {
    if rec_id.len() > 0 {
        r.timestamp@ == rec_id
    } else if file_id.len() > 0 && r.file_id@.len() > 0 {
        r.file_id@ == file_id
    } else {
        r.name@ == name && same_path(r.dir@, dir)
    }
}

/// Whether an upload record is the one a removal asks for: by its id when one
/// is given, else by name and local path.
pub open spec fn upload_matches(
    r: UploadRecord,
    rec_id: Seq<char>,
    local_path: Seq<char>,
    name: Seq<char>,
) -> bool {
    if rec_id.len() > 0 {
        r.timestamp@ == rec_id
    } else {
        r.name@ == name && same_path(r.local_path@, local_path)
    }
}

/// Index of the newest (first) download record that `download_matches` the request.
pub open spec fn download_removal(
    h: Seq<DownloadRecord>,
    rec_id: Seq<char>,
    file_id: Seq<char>,
    name: Seq<char>,
    dir: Seq<char>,
) -> Option<int> {
    if exists|i: int| 0 <= i < h.len() && download_matches(h[i], rec_id, file_id, name, dir) {
        Some(
            choose|i: int|
                0 <= i < h.len() && download_matches(h[i], rec_id, file_id, name, dir) && forall|j: int|
                    0 <= j < i ==> !download_matches(#[trigger] h[j], rec_id, file_id, name, dir),
        )
    } else {
        None
    }
}

/// Index of the newest (first) upload record that `upload_matches` the request.
pub open spec fn upload_removal(
    h: Seq<UploadRecord>,
    rec_id: Seq<char>,
    local_path: Seq<char>,
    name: Seq<char>,
) -> Option<int> {
    if exists|i: int| 0 <= i < h.len() && upload_matches(h[i], rec_id, local_path, name) {
        Some(
            choose|i: int|
                0 <= i < h.len() && upload_matches(h[i], rec_id, local_path, name) && forall|j: int|
                    0 <= j < i ==> !upload_matches(#[trigger] h[j], rec_id, local_path, name),
        )
    } else {
        None
    }
}

proof fn lemma_download_removal(
    h: Seq<DownloadRecord>,
    rec_id: Seq<char>,
    file_id: Seq<char>,
    name: Seq<char>,
    dir: Seq<char>,
    i: int,
)
    requires
        0 <= i < h.len(),
        download_matches(h[i], rec_id, file_id, name, dir),
        forall|j: int| 0 <= j < i ==> !download_matches(#[trigger] h[j], rec_id, file_id, name, dir),
    ensures
        download_removal(h, rec_id, file_id, name, dir) == Some(i),
{
    let w = choose|w: int|
        0 <= w < h.len() && download_matches(h[w], rec_id, file_id, name, dir) && forall|j: int|
            0 <= j < w ==> !download_matches(#[trigger] h[j], rec_id, file_id, name, dir);
    if w < i {
        assert(!download_matches(h[w], rec_id, file_id, name, dir));
    } else if w > i {
        assert(!download_matches(h[i], rec_id, file_id, name, dir));
    }
}

proof fn lemma_upload_removal(
    h: Seq<UploadRecord>,
    rec_id: Seq<char>,
    local_path: Seq<char>,
    name: Seq<char>,
    i: int,
)
    requires
        0 <= i < h.len(),
        upload_matches(h[i], rec_id, local_path, name),
        forall|j: int| 0 <= j < i ==> !upload_matches(#[trigger] h[j], rec_id, local_path, name),
    ensures
        upload_removal(h, rec_id, local_path, name) == Some(i),
{
    let w = choose|w: int|
        0 <= w < h.len() && upload_matches(h[w], rec_id, local_path, name) && forall|j: int|
            0 <= j < w ==> !upload_matches(#[trigger] h[j], rec_id, local_path, name);
    if w < i {
        assert(!upload_matches(h[w], rec_id, local_path, name));
    } else if w > i {
        assert(!upload_matches(h[i], rec_id, local_path, name));
    }
}

/// Adds a finished download to the front of the history, keeping the newest
/// `HISTORY_LIMIT` records.
pub fn append_download_record(history: &mut Vec<DownloadRecord>, record: DownloadRecord)
    ensures
        final(history)@ == appended(old(history)@, record),
{
    history.insert(0, record);
    if history.len() > HISTORY_LIMIT {
        history.truncate(HISTORY_LIMIT);
    }
}

fn download_match(
    r: &DownloadRecord,
    rec_id: &str,
    file_id: &str,
    name: &str,
    dir: &str,
) -> (b: bool)
    ensures
        b == download_matches(*r, rec_id@, file_id@, name@, dir@),
{
    if !rec_id.is_empty() {
        str_eq(r.timestamp.as_str(), rec_id)
    } else if !file_id.is_empty() && !r.file_id.as_str().is_empty() {
        str_eq(r.file_id.as_str(), file_id)
    } else {
        str_eq(r.name.as_str(), name) && path_eq(r.dir.as_str(), dir)
    }
}

/// Removes the newest download record matching the request (see
/// `download_matches`); only the list entry goes, never the downloaded file.
/// Returns whether a record was removed.
pub fn remove_download_record(
    history: &mut Vec<DownloadRecord>,
    rec_id: &str,
    file_id: &str,
    name: &str,
    dir: &str,
) -> (removed: bool)
    ensures
        final(history)@ == without(old(history)@, download_removal(old(history)@, rec_id@, file_id@, name@, dir@)),
        removed == download_removal(old(history)@, rec_id@, file_id@, name@, dir@) is Some,
{
    let mut i: usize = 0;
    while i < history.len()
        invariant
            0 <= i <= history@.len(),
            history@ == old(history)@,
            forall|j: int| 0 <= j < i ==> !download_matches(#[trigger] history@[j], rec_id@, file_id@, name@, dir@),
        decreases history@.len() - i,
    {
        if download_match(&history[i], rec_id, file_id, name, dir) {
            proof {
                lemma_download_removal(history@, rec_id@, file_id@, name@, dir@, i as int);
            }
            history.remove(i);
            return true;
        }
        i += 1;
    }
    false
}

/// Adds a finished upload to the front of the history, keeping the newest
/// `HISTORY_LIMIT` records.
pub fn append_upload_record(history: &mut Vec<UploadRecord>, record: UploadRecord)
    ensures
        final(history)@ == appended(old(history)@, record),
{
    history.insert(0, record);
    if history.len() > HISTORY_LIMIT {
        history.truncate(HISTORY_LIMIT);
    }
}

/// Removes the newest upload record matching the request (see
/// `upload_matches`). Returns whether a record was removed.
pub fn remove_upload_record(
    history: &mut Vec<UploadRecord>,
    rec_id: &str,
    local_path: &str,
    name: &str,
) -> (removed: bool)
    ensures
        final(history)@ == without(old(history)@, upload_removal(old(history)@, rec_id@, local_path@, name@)),
        removed == upload_removal(old(history)@, rec_id@, local_path@, name@) is Some,
{
    let mut i: usize = 0;
    while i < history.len()
        invariant
            0 <= i <= history@.len(),
            history@ == old(history)@,
            forall|j: int| 0 <= j < i ==> !upload_matches(#[trigger] history@[j], rec_id@, local_path@, name@),
        decreases history@.len() - i,
    {
        let r = &history[i];
        let hit = if !rec_id.is_empty() {
            str_eq(r.timestamp.as_str(), rec_id)
        } else {
            str_eq(r.name.as_str(), name) && path_eq(r.local_path.as_str(), local_path)
        };
        if hit {
            proof {
                lemma_upload_removal(history@, rec_id@, local_path@, name@, i as int);
            }
            history.remove(i);
            return true;
        }
        i += 1;
    }
    false
}

/// Adding a record and then removing by that record's (non-empty) id gives the
/// history back, as long as the limit did not push an old record out.
pub proof fn lemma_download_append_then_remove(h: Seq<DownloadRecord>, r: DownloadRecord, name: Seq<char>, file_id: Seq<char>, dir: Seq<char>)
    requires
        r.timestamp@.len() > 0,
        h.len() < HISTORY_LIMIT,
    ensures
        without(appended(h, r), download_removal(appended(h, r), r.timestamp@, file_id, name, dir)) == h,
{
    let a = appended(h, r);
    assert(a == seq![r] + h);
    assert(a[0] == r);
    lemma_download_removal(a, r.timestamp@, file_id, name, dir, 0);
    assert(a.remove(0) == h);
}

/// Adding a record and then removing by that record's (non-empty) id gives the
/// history back, as long as the limit did not push an old record out.
pub proof fn lemma_upload_append_then_remove(h: Seq<UploadRecord>, r: UploadRecord, local_path: Seq<char>, name: Seq<char>)
    requires
        r.timestamp@.len() > 0,
        h.len() < HISTORY_LIMIT,
    ensures
        without(appended(h, r), upload_removal(appended(h, r), r.timestamp@, local_path, name)) == h,
{
    let a = appended(h, r);
    assert(a == seq![r] + h);
    assert(a[0] == r);
    lemma_upload_removal(a, r.timestamp@, local_path, name, 0);
    assert(a.remove(0) == h);
}

/// The history never grows past `HISTORY_LIMIT`, and the added record comes first.
pub proof fn lemma_appended_bounded<T>(h: Seq<T>, r: T)
    requires
        h.len() <= HISTORY_LIMIT,
    ensures
        appended(h, r).len() <= HISTORY_LIMIT,
        appended(h, r)[0] == r,
        appended(h, r).skip(1) == h.take(appended(h, r).len() - 1),
{
    let n = seq![r] + h;
    assert(n[0] == r);
    if n.len() > HISTORY_LIMIT {
        assert(n.take(HISTORY_LIMIT as int).skip(1) == h.take(HISTORY_LIMIT - 1));
    } else {
        assert(n.skip(1) == h);
        assert(h.take(h.len() as int) == h);
    }
}

} // verus!
