//! Saving someone else's share into the drive. The server puts saved files
//! in a folder of its own ("Pack From Shared" / 「转存自分享」); when the user
//! chose another destination, the files that are new there are moved on,
//! polling until the server lists them.

use vstd::prelude::*;

use crate::browse::{contains_id, distinct_ids, has_id, insert_id, remove_id};
use crate::format::NoticeKind;
use crate::pages::FolderPicker;
use crate::share_link::{parse_share_input, parsed_share};
use crate::text::{
    chars_of, contains, contains_chars, push_str, str_eq, string_from_chars, to_lowercase, trim, trim_chars,
    unicode_lowercase,
};
use crate::types::{opt_view, File};

verus! {

/// Polls of the server's folder before giving up on new files.
pub const MOVE_POLL_ATTEMPTS: u32 = 5;

/// Whether a folder name is the server's folder for saved shares.
pub open spec fn is_pack_name(name: Seq<char>) -> bool {
    contains(name, "Pack From Shared"@) || contains(name, "转存自分享"@)
}

/// Whether an entry is a folder.
pub open spec fn folder_kind(f: File) -> bool {
    contains(f.kind@, "folder"@)
}

/// The first listed folder with id `id`.
pub open spec fn folder_with_id(files: Seq<File>, id: Seq<char>) -> Option<int> {
    if exists|i: int| 0 <= i < files.len() && folder_kind(files[i]) && files[i].id@ == id {
        Some(choose|i: int|
            0 <= i < files.len() && folder_kind(files[i]) && files[i].id@ == id && forall|j: int|
                0 <= j < i ==> !(folder_kind(#[trigger] files[j]) && files[j].id@ == id))
    } else {
        None
    }
}

/// The first listed folder with the server's name for saved shares.
pub open spec fn folder_named_pack(files: Seq<File>) -> Option<int> {
    if exists|i: int| 0 <= i < files.len() && folder_kind(files[i]) && is_pack_name(files[i].name@) {
        Some(choose|i: int|
            0 <= i < files.len() && folder_kind(files[i]) && is_pack_name(files[i].name@) && forall|j: int|
                0 <= j < i ==> !(folder_kind(#[trigger] files[j]) && is_pack_name(files[j].name@)))
    } else {
        None
    }
}

/// The server's folder for saved shares among the root's entries: the
/// folder with the remembered id, else the first folder with its name.
pub open spec fn pack_folder(files: Seq<File>, cached: Option<Seq<char>>) -> Option<int> {
    match cached {
        Some(c) => match folder_with_id(files, c) {
            Some(i) => Some(i),
            None => folder_named_pack(files),
        },
        None => folder_named_pack(files),
    }
}

/// Finds the server's folder for saved shares among the root's entries.
/// The remembered id (it may be stale: the user can delete the folder, and
/// the server makes a new one) is preferred; otherwise the name decides.
pub fn pick_pack_folder(files: &[File], cached: &Option<String>) -> (r: Option<usize>)
    ensures
        match r {
            Some(i) => pack_folder(files@, opt_view(*cached)) == Some(i as int) && i < files@.len(),
            None => pack_folder(files@, opt_view(*cached)) is None,
        },
{
    if let Some(c) = cached {
        let mut i: usize = 0;
        while i < files.len()
            invariant
                0 <= i <= files@.len(),
                opt_view(*cached) == Some(c@),
                forall|j: int| 0 <= j < i ==> !(folder_kind(#[trigger] files@[j]) && files@[j].id@ == c@),
            decreases files@.len() - i,
        {
            if files[i].is_folder() && str_eq(files[i].id.as_str(), c.as_str()) {
                proof {
                    let ii = i as int;
                    assert(0 <= ii < files@.len() && folder_kind(files@[ii]) && files@[ii].id@ == c@ && forall|j: int|
                        0 <= j < ii ==> !(folder_kind(#[trigger] files@[j]) && files@[j].id@ == c@));
                    let w = choose|w: int|
                        0 <= w < files@.len() && folder_kind(files@[w]) && files@[w].id@ == c@ && forall|j: int|
                            0 <= j < w ==> !(folder_kind(#[trigger] files@[j]) && files@[j].id@ == c@);
                    if w < ii {
                        assert(!(folder_kind(files@[w]) && files@[w].id@ == c@));
                    }
                    if w > ii {
                        assert(!(folder_kind(files@[ii]) && files@[ii].id@ == c@));
                    }
                    assert(folder_with_id(files@, c@) == Some(ii));
                    assert(opt_view(*cached) == Some(c@));
                }
                return Some(i);
            }
            i += 1;
        }
    }
    let pack = chars_of("Pack From Shared");
    let pack_cn = chars_of("转存自分享");
    let mut i: usize = 0;
    while i < files.len()
        invariant
            0 <= i <= files@.len(),
            pack@ == "Pack From Shared"@,
            pack_cn@ == "转存自分享"@,
            forall|j: int| 0 <= j < i ==> !(folder_kind(#[trigger] files@[j]) && is_pack_name(files@[j].name@)),
            match opt_view(*cached) {
                Some(c) => folder_with_id(files@, c) is None,
                None => true,
            },
        decreases files@.len() - i,
    {
        let name = chars_of(files[i].name.as_str());
        if files[i].is_folder() && (contains_chars(&name, &pack) || contains_chars(&name, &pack_cn)) {
            proof {
                let ii = i as int;
                assert(0 <= ii < files@.len() && folder_kind(files@[ii]) && is_pack_name(files@[ii].name@)
                    && forall|j: int|
                    0 <= j < ii ==> !(folder_kind(#[trigger] files@[j]) && is_pack_name(files@[j].name@)));
                let w = choose|w: int|
                    0 <= w < files@.len() && folder_kind(files@[w]) && is_pack_name(files@[w].name@) && forall|j: int|
                        0 <= j < w ==> !(folder_kind(#[trigger] files@[j]) && is_pack_name(files@[j].name@));
                if w < ii {
                    assert(!(folder_kind(files@[w]) && is_pack_name(files@[w].name@)));
                }
                if w > ii {
                    assert(!(folder_kind(files@[ii]) && is_pack_name(files@[ii].name@)));
                }
            }
            return Some(i);
        }
        i += 1;
    }
    None
}

/// The ids of the listed files that were not there before, in list order.
pub open spec fn new_ids(files: Seq<File>, before: Seq<String>) -> Seq<Seq<char>> {
    files.filter(|f: File| !has_id(before, f.id@)).map_values(|f: File| f.id@)
}

/// The files the server's folder lists now that it did not list before the
/// share was saved: the ones to move on.
pub fn new_file_ids(files: &[File], before: &[String]) -> (r: Vec<String>)
    ensures
        r@.map_values(|s: String| s@) == new_ids(files@, before@),
{
    let ghost pred = |f: File| !has_id(before@, f.id@);
    let mut r: Vec<String> = Vec::new();
    let mut i: usize = 0;
    while i < files.len()
        invariant
            0 <= i <= files@.len(),
            pred == (|f: File| !has_id(before@, f.id@)),
            r@.map_values(|s: String| s@) == files@.take(i as int).filter(pred).map_values(|f: File| f.id@),
        decreases files@.len() - i,
    {
        proof {
            assert(files@.take(i + 1) == files@.take(i as int).push(files@[i as int]));
            files@.take(i as int).lemma_filter_push(files@[i as int], pred);
        }
        let ghost r0 = r@;
        let mut seen = false;
        let mut k: usize = 0;
        while k < before.len()
            invariant
                0 <= k <= before@.len(),
                i < files@.len(),
                seen == (exists|q: int| 0 <= q < k && (#[trigger] before@[q])@ == files@[i as int].id@),
            decreases before@.len() - k,
        {
            if str_eq(before[k].as_str(), files[i].id.as_str()) {
                seen = true;
            }
            k += 1;
        }
        if !seen {
            r.push(files[i].id.clone());
            proof {
                assert(r@.map_values(|s: String| s@) =~= r0.map_values(|s: String| s@).push(files@[i as int].id@));
            }
        }
        i += 1;
    }
    assert(files@.take(files@.len() as int) == files@);
    r
}

/// Seconds to wait before poll `attempt` (counted from 0): 1 s, 2 s, ….
pub fn move_poll_delay_secs(attempt: u32) -> (s: u64)
    ensures
        s == attempt + 1,
{
    attempt as u64 + 1
}

/// What one poll of the server's folder saw.
#[derive(Debug)]
pub enum PollSeen {
    /// The folder is not there (yet).
    NoFolder,
    /// The folder's files that are new.
    Listed(Vec<String>),
}

/// What to do after a poll.
#[derive(Debug)]
pub enum PollNext {
    /// Wait and poll again.
    Again,
    /// Move these files to the destination.
    Move(Vec<String>),
    /// Nothing new turned up: the files stay where the server put them, and
    /// that is no error.
    NothingNew,
    /// The folder never turned up: an error.
    NoFolder,
}

/// The decision after poll `attempt` (from 0) of `MOVE_POLL_ATTEMPTS`: new
/// files are moved at once; otherwise the next poll follows, unless this was
/// the last one.
pub fn after_poll(attempt: u32, seen: PollSeen) -> (n: PollNext)
    requires
        attempt < MOVE_POLL_ATTEMPTS,
    ensures
        match seen {
            PollSeen::NoFolder => if attempt + 1 == MOVE_POLL_ATTEMPTS {
                n is NoFolder
            } else {
                n is Again
            },
            PollSeen::Listed(ids) => if ids@.len() > 0 {
                n matches PollNext::Move(m) && m@ == ids@
            } else if attempt + 1 == MOVE_POLL_ATTEMPTS {
                n is NothingNew
            } else {
                n is Again
            },
        },
{
    let last = attempt + 1 == MOVE_POLL_ATTEMPTS;
    match seen {
        PollSeen::NoFolder => if last {
            PollNext::NoFolder
        } else {
            PollNext::Again
        },
        PollSeen::Listed(ids) => if ids.len() > 0 {
            PollNext::Move(ids)
        } else if last {
            PollNext::NothingNew
        } else {
            PollNext::Again
        },
    }
}

/// Retrying a failed move takes every file in the server's folder; an
/// empty folder has nothing to move (`None`).
pub fn retry_move_ids(files: &[File]) -> (r: Option<Vec<String>>)
    ensures
        files@.len() == 0 <==> r is None,
        r matches Some(ids) ==> ids@.map_values(|s: String| s@) == files@.map_values(|f: File| f.id@),
{
    if files.len() == 0 {
        return None;
    }
    let mut r: Vec<String> = Vec::new();
    let mut i: usize = 0;
    while i < files.len()
        invariant
            0 <= i <= files@.len(),
            r@.map_values(|s: String| s@) == files@.take(i as int).map_values(|f: File| f.id@),
        decreases files@.len() - i,
    {
        let ghost r0 = r@;
        r.push(files[i].id.clone());
        proof {
            assert(files@.take(i + 1) == files@.take(i as int).push(files@[i as int]));
            assert(r@.map_values(|s: String| s@) =~= r0.map_values(|s: String| s@).push(files@[i as int].id@));
            assert(files@.take(i + 1).map_values(|f: File| f.id@) =~= files@.take(i as int).map_values(
                |f: File| f.id@,
            ).push(files@[i as int].id@));
        }
        i += 1;
    }
    assert(files@.take(files@.len() as int) == files@);
    Some(r)
}

/// The notice after a share was saved, with destination `dest` (id, name)
/// when the user chose one.
pub open spec fn saved_text(auto_move_failed: bool, dest: Option<(String, String)>) -> Seq<char> {
    if auto_move_failed {
        match dest {
            Some(d) => "转存成功, 但自动移动到「"@ + d.1@ + "」失败。文件仍在「转存自分享」中"@,
            None => "转存成功, 但自动移动失败, 请在「转存自分享」中查看"@,
        }
    } else {
        match dest {
            Some(_) => "转存成功, 文件已移动到目标目录"@,
            None => "转存成功, 文件已保存到「转存自分享」"@,
        }
    }
}

/// A share was saved. When moving the files on failed, the destination is
/// remembered so the move can be retried; the notice says what happened.
pub fn share_saved(
    auto_move_failed: bool,
    dest: &Option<(String, String)>,
    move_failed: &mut Option<(String, String)>,
) -> (r: (NoticeKind, String))
    ensures
        auto_move_failed ==> *final(move_failed) == *dest && r.0 == NoticeKind::Warn,
        !auto_move_failed ==> *final(move_failed) == *old(move_failed) && r.0 == NoticeKind::Done,
        r.1@ == saved_text(auto_move_failed, *dest),
{
    if auto_move_failed {
        *move_failed = clone_dest(dest);
        let text = match dest {
            Some(d) => {
                let mut out: Vec<char> = Vec::new();
                push_str(&mut out, "转存成功, 但自动移动到「");
                push_str(&mut out, d.1.as_str());
                push_str(&mut out, "」失败。文件仍在「转存自分享」中");
                string_from_chars(&out)
            },
            None => "转存成功, 但自动移动失败, 请在「转存自分享」中查看".to_owned(),
        };
        (NoticeKind::Warn, text)
    } else {
        let text = match dest {
            Some(_) => "转存成功, 文件已移动到目标目录".to_owned(),
            None => "转存成功, 文件已保存到「转存自分享」".to_owned(),
        };
        (NoticeKind::Done, text)
    }
}

fn clone_dest(dest: &Option<(String, String)>) -> (r: Option<(String, String)>)
    ensures
        r == *dest,
{
    match dest {
        Some(d) => Some((d.0.clone(), d.1.clone())),
        None => None,
    }
}

// ---------------------------------------------------------------------------
// The dialog

/// The message shown when the input is neither a share link nor an id.
pub open spec fn unreadable_link_text() -> Seq<char> {
    "无法识别分享链接, 请检查格式 (例如 https://mypikpak.com/s/xxx 或直接输入 ID)"@
}

/// The "save a share" dialog: the link typed in, the share once resolved
/// (its files, page by page), the files picked and where they go.
#[derive(Debug)]
pub struct SaveShareDialog {
    pub open: bool,
    pub input: String,
    pub pass_code: String,
    pub resolving: bool,
    pub share_id: Option<String>,
    pub title: Option<String>,
    /// Token proving the access code was accepted.
    pub token: Option<String>,
    pub files: Vec<File>,
    /// Picked file ids (no repeats).
    pub selected: Vec<String>,
    /// Text the file list is narrowed by.
    pub filter: String,
    pub next: Option<String>,
    pub loading_more: bool,
    pub saving: bool,
    pub error: Option<String>,
    pub picker: FolderPicker,
    /// The chosen destination (id, name); the root has an empty id.
    pub dest: Option<(String, String)>,
}

/// A request to save files of a share.
#[derive(Debug)]
pub struct SaveAsk {
    pub share_id: String,
    pub pass_code_token: String,
    pub file_ids: Vec<String>,
    /// Where the files go on; `None` leaves them where the server puts them.
    pub dest: Option<String>,
}

/// A request for a further page of a share's files.
#[derive(Debug)]
pub struct MoreFilesAsk {
    pub share_id: String,
    pub pass_code_token: String,
    pub page_token: String,
}

/// Whether file `f` passes the dialog's filter: no filter, or its
/// lower-cased name holds the lower-cased filter.
pub open spec fn passes(filter: Seq<char>, f: File) -> bool {
    filter.len() == 0 || contains(unicode_lowercase(f.name@), unicode_lowercase(filter))
}

/// The indices of the files that pass the filter, in order.
pub open spec fn filtered_rows(files: Seq<File>, filter: Seq<char>) -> Seq<int> {
    Seq::new(files.len(), |i: int| i).filter(|i: int| passes(filter, files[i]))
}

impl SaveShareDialog {
    /// A closed, empty dialog.
    pub fn new() -> (d: SaveShareDialog)
        ensures
            d.blank(),
            !d.open,
    {
        SaveShareDialog {
            open: false,
            input: String::new(),
            pass_code: String::new(),
            resolving: false,
            share_id: None,
            title: None,
            token: None,
            files: Vec::new(),
            selected: Vec::new(),
            filter: String::new(),
            next: None,
            loading_more: false,
            saving: false,
            error: None,
            picker: FolderPicker::new(),
            dest: None,
        }
    }

    /// Whether everything but `open` (and the picker's request counter) is back to empty.
    pub open spec fn blank(&self) -> bool {
        &&& self.input@.len() == 0
        &&& self.pass_code@.len() == 0
        &&& !self.resolving
        &&& self.share_id is None
        &&& self.title is None
        &&& self.token is None
        &&& self.files@.len() == 0
        &&& self.selected@.len() == 0
        &&& self.filter@.len() == 0
        &&& self.next is None
        &&& !self.loading_more
        &&& !self.saving
        &&& self.error is None
        &&& !self.picker.open
        &&& self.picker.stack@.len() == 1 && self.picker.stack@[0].0 is None
        &&& self.picker.folders@.len() == 0
        &&& !self.picker.loading
        &&& self.dest is None
    }

    /// Empties the dialog (after saving, or when it is closed).
    pub fn clear(&mut self)
        ensures
            final(self).blank(),
            final(self).open == old(self).open,
            final(self).picker.req == old(self).picker.req,
    {
        self.input = String::new();
        self.pass_code = String::new();
        self.resolving = false;
        self.share_id = None;
        self.title = None;
        self.token = None;
        self.files = Vec::new();
        self.selected = Vec::new();
        self.filter = String::new();
        self.next = None;
        self.loading_more = false;
        self.saving = false;
        self.error = None;
        self.picker.reset();
        self.dest = None;
    }

    /// Whether the "resolve" button is enabled: some input, and no
    /// resolution on its way.
    pub fn can_resolve(&self) -> (b: bool)
        ensures
            b == (trim(self.input@).len() > 0 && !self.resolving),
    {
        trim_chars(&chars_of(self.input.as_str())).len() > 0 && !self.resolving
    }

    /// Reads the input and asks for the share (id, access code). The access
    /// code a link carries fills the code field when that is blank. Input
    /// that is no share gives an error message and no request.
    pub fn resolve(&mut self) -> (ask: Option<(String, String)>)
        ensures
            match parsed_share(old(self).input@) {
                None => ask is None && (final(self).error matches Some(e) && e@ == unreadable_link_text())
                    && final(self).resolving == old(self).resolving && final(self).pass_code@
                    == old(self).pass_code@,
                Some((id, code)) => {
                    &&& final(self).error is None
                    &&& final(self).resolving
                    &&& final(self).pass_code@ == (match code {
                        Some(c) => if trim(old(self).pass_code@).len() == 0 {
                            c
                        } else {
                            old(self).pass_code@
                        },
                        None => old(self).pass_code@,
                    })
                    &&& ask matches Some(a) && a.0@ == id && a.1@ == final(self).pass_code@
                },
            },
            final(self).input@ == old(self).input@,
            final(self).files@ == old(self).files@,
    {
        self.error = None;
        match parse_share_input(self.input.as_str()) {
            Some((share_id, extracted)) => {
                if let Some(p) = extracted {
                    if trim_chars(&chars_of(self.pass_code.as_str())).len() == 0 {
                        self.pass_code = p;
                    }
                }
                self.resolving = true;
                Some((share_id, self.pass_code.clone()))
            },
            None => {
                self.error = Some(
                    "无法识别分享链接, 请检查格式 (例如 https://mypikpak.com/s/xxx 或直接输入 ID)".to_owned(),
                );
                None
            },
        }
    }

    /// The share was resolved: its first page of files is shown, none picked.
    pub fn resolved(
        &mut self,
        share_id: String,
        title: String,
        pass_code_token: String,
        files: Vec<File>,
        next: Option<String>,
    )
        ensures
            !final(self).resolving,
            final(self).share_id == Some(share_id),
            final(self).title == Some(title),
            final(self).token == Some(pass_code_token),
            final(self).files@ == files@,
            final(self).next == next,
            final(self).selected@.len() == 0,
            final(self).input@ == old(self).input@,
            final(self).dest == old(self).dest,
    {
        self.resolving = false;
        self.share_id = Some(share_id);
        self.title = Some(title);
        self.token = Some(pass_code_token);
        self.files = files;
        self.next = next;
        self.selected = Vec::new();
    }

    /// Resolving failed with message `what`.
    pub fn resolve_failed(&mut self, what: String)
        ensures
            !final(self).resolving,
            final(self).error == Some(what),
            final(self).files@ == old(self).files@,
    {
        self.resolving = false;
        self.error = Some(what);
    }

    /// Asks for the next page of the share's files, when there is one and
    /// the share is resolved; not while a page is on its way.
    pub fn load_more(&mut self) -> (ask: Option<MoreFilesAsk>)
        ensures
            (old(self).next is None || old(self).loading_more || old(self).share_id is None
                || old(self).token is None) ==> ask is None && final(self).loading_more == old(self).loading_more
                && final(self).error == old(self).error,
            !(old(self).next is None || old(self).loading_more || old(self).share_id is None
                || old(self).token is None) ==> {
                &&& final(self).loading_more
                &&& final(self).error is None
                &&& ask matches Some(a) && Some(a.share_id@) == opt_view(old(self).share_id) && Some(
                    a.pass_code_token@,
                ) == opt_view(old(self).token) && Some(a.page_token@) == opt_view(old(self).next)
            },
            final(self).files@ == old(self).files@,
            final(self).next == old(self).next,
    {
        if self.loading_more {
            return None;
        }
        let page_token = match &self.next {
            Some(t) => t.clone(),
            None => return None,
        };
        let share_id = match &self.share_id {
            Some(s) => s.clone(),
            None => return None,
        };
        let pass_code_token = match &self.token {
            Some(t) => t.clone(),
            None => return None,
        };
        self.loading_more = true;
        self.error = None;
        Some(MoreFilesAsk { share_id, pass_code_token, page_token })
    }

    /// A further page of files arrived; it is added as it is.
    pub fn files_loaded(&mut self, files: Vec<File>, next: Option<String>)
        ensures
            !final(self).loading_more,
            final(self).files@ == old(self).files@ + files@,
            final(self).next == next,
            final(self).selected@ == old(self).selected@,
    {
        let mut files = files;
        self.loading_more = false;
        self.files.append(&mut files);
        self.next = next;
    }

    /// Loading a further page failed with message `what`.
    pub fn load_failed(&mut self, what: String)
        ensures
            !final(self).loading_more,
            final(self).error == Some(what),
            final(self).files@ == old(self).files@,
    {
        self.loading_more = false;
        self.error = Some(what);
    }

    /// Back to typing a link: the resolved share is dropped.
    pub fn back(&mut self)
        ensures
            final(self).share_id is None && final(self).title is None && final(self).token is None,
            final(self).files@.len() == 0,
            final(self).selected@.len() == 0,
            final(self).error is None,
            final(self).input@ == old(self).input@,
            final(self).pass_code@ == old(self).pass_code@,
    {
        self.share_id = None;
        self.title = None;
        self.token = None;
        self.files = Vec::new();
        self.selected = Vec::new();
        self.error = None;
    }

    /// The rows the filter lets through, in order.
    pub fn filtered(&self) -> (r: Vec<usize>)
        ensures
            r@.map_values(|i: usize| i as int) == filtered_rows(self.files@, self.filter@),
    {
        let ghost all = Seq::new(self.files@.len(), |i: int| i);
        let ghost pred = |i: int| passes(self.filter@, self.files@[i]);
        let lower_filter = to_lowercase(self.filter.as_str());
        let kw = chars_of(lower_filter.as_str());
        let empty = self.filter.as_str().is_empty();
        let mut r: Vec<usize> = Vec::new();
        let mut i: usize = 0;
        while i < self.files.len()
            invariant
                0 <= i <= self.files@.len(),
                all == Seq::new(self.files@.len(), |i: int| i),
                pred == (|i: int| passes(self.filter@, self.files@[i])),
                kw@ == unicode_lowercase(self.filter@),
                empty == (self.filter@.len() == 0),
                r@.map_values(|i: usize| i as int) == all.take(i as int).filter(pred),
            decreases self.files@.len() - i,
        {
            proof {
                assert(all.take(i + 1) == all.take(i as int).push(all[i as int]));
                all.take(i as int).lemma_filter_push(all[i as int], pred);
            }
            let ghost r0 = r@;
            let keep = if empty {
                true
            } else {
                let name = to_lowercase(self.files[i].name.as_str());
                contains_chars(&chars_of(name.as_str()), &kw)
            };
            if keep {
                r.push(i);
                proof {
                    assert(r@.map_values(|i: usize| i as int) =~= r0.map_values(|i: usize| i as int).push(i as int));
                }
            }
            i += 1;
        }
        proof {
            assert(all.take(i as int) == all);
        }
        r
    }

    /// Whether every file the filter lets through is picked (and there is one).
    pub fn all_filtered_selected(&self) -> (b: bool)
        ensures
            b == (filtered_rows(self.files@, self.filter@).len() > 0 && forall|k: int|
                0 <= k < filtered_rows(self.files@, self.filter@).len() ==> has_id(
                    self.selected@,
                    self.files@[filtered_rows(self.files@, self.filter@)[k]].id@,
                )),
    {
        let rows = self.filtered();
        let ghost fr = filtered_rows(self.files@, self.filter@);
        proof {
            assert(rows@.len() == fr.len());
            lemma_rows_in_range(self.files@, self.filter@);
        }
        if rows.len() == 0 {
            return false;
        }
        let mut k: usize = 0;
        while k < rows.len()
            invariant
                0 <= k <= rows@.len(),
                rows@.map_values(|i: usize| i as int) == fr,
                fr == filtered_rows(self.files@, self.filter@),
                forall|q: int| 0 <= q < fr.len() ==> 0 <= #[trigger] fr[q] < self.files@.len(),
                forall|q: int| 0 <= q < k ==> has_id(self.selected@, self.files@[#[trigger] fr[q]].id@),
            decreases rows@.len() - k,
        {
            assert(fr[k as int] == rows@[k as int] as int);
            let idx = rows[k];
            if !contains_id(self.selected.as_slice(), self.files[idx].id.as_str()) {
                return false;
            }
            k += 1;
        }
        true
    }

    /// Picks (`on`) or unpicks every file the filter lets through.
    pub fn select_filtered(&mut self, on: bool)
        requires
            distinct_ids(old(self).selected@),
        ensures
            distinct_ids(final(self).selected@),
            forall|s: Seq<char>| #[trigger] has_id(final(self).selected@, s) <==> (if on {
                has_id(old(self).selected@, s) || exists|k: int|
                    0 <= k < filtered_rows(old(self).files@, old(self).filter@).len() && old(self).files@[filtered_rows(
                        old(self).files@,
                        old(self).filter@,
                    )[k]].id@ == s
            } else {
                has_id(old(self).selected@, s) && !exists|k: int|
                    0 <= k < filtered_rows(old(self).files@, old(self).filter@).len() && old(self).files@[filtered_rows(
                        old(self).files@,
                        old(self).filter@,
                    )[k]].id@ == s
            }),
            final(self).files@ == old(self).files@,
            final(self).filter@ == old(self).filter@,
    {
        let rows = self.filtered();
        let ghost fr = filtered_rows(self.files@, self.filter@);
        let ghost s0 = self.selected@;
        proof {
            lemma_rows_in_range(self.files@, self.filter@);
        }
        let mut k: usize = 0;
        while k < rows.len()
            invariant
                0 <= k <= rows@.len(),
                rows@.map_values(|i: usize| i as int) == fr,
                fr == filtered_rows(old(self).files@, old(self).filter@),
                forall|q: int| 0 <= q < fr.len() ==> 0 <= #[trigger] fr[q] < self.files@.len(),
                self.files@ == old(self).files@,
                self.filter@ == old(self).filter@,
                s0 == old(self).selected@,
                distinct_ids(self.selected@),
                forall|s: Seq<char>| #[trigger] has_id(self.selected@, s) <==> (if on {
                    has_id(s0, s) || exists|q: int| 0 <= q < k && self.files@[fr[q]].id@ == s
                } else {
                    has_id(s0, s) && !exists|q: int| 0 <= q < k && self.files@[fr[q]].id@ == s
                }),
            decreases rows@.len() - k,
        {
            assert(fr[k as int] == rows@[k as int] as int);
            let idx = rows[k];
            let id = self.files[idx].id.clone();
            let ghost before = self.selected@;
            if on {
                insert_id(&mut self.selected, id);
            } else {
                remove_id(&mut self.selected, id.as_str());
            }
            proof {
                let t_id = self.files@[fr[k as int]].id@;
                assert(id@ == t_id);
                assert forall|s: Seq<char>| has_id(self.selected@, s) <==> (if on {
                    has_id(s0, s) || exists|q: int| 0 <= q < k + 1 && self.files@[fr[q]].id@ == s
                } else {
                    has_id(s0, s) && !exists|q: int| 0 <= q < k + 1 && self.files@[fr[q]].id@ == s
                }) by {
                    let ex_k = exists|q: int| 0 <= q < k && self.files@[fr[q]].id@ == s;
                    let ex_k1 = exists|q: int| 0 <= q < k + 1 && self.files@[fr[q]].id@ == s;
                    if ex_k1 {
                        let q = choose|q: int| 0 <= q < k + 1 && self.files@[fr[q]].id@ == s;
                        if q < k {
                            assert(ex_k);
                        } else {
                            assert(s == t_id);
                        }
                    }
                    if ex_k {
                        let q = choose|q: int| 0 <= q < k && self.files@[fr[q]].id@ == s;
                        assert(0 <= q < k + 1 && self.files@[fr[q]].id@ == s);
                    }
                    if s == t_id {
                        assert(0 <= k < k + 1 && self.files@[fr[k as int]].id@ == s);
                    }
                    assert(ex_k1 == (ex_k || s == t_id));
                    assert(has_id(before, s) <==> (if on {
                        has_id(s0, s) || ex_k
                    } else {
                        has_id(s0, s) && !ex_k
                    }));
                }
            }
            k += 1;
        }
    }

    /// Picks or unpicks one file.
    pub fn toggle(&mut self, id: String, on: bool)
        requires
            distinct_ids(old(self).selected@),
        ensures
            distinct_ids(final(self).selected@),
            forall|s: Seq<char>| has_id(final(self).selected@, s) <==> (if on {
                has_id(old(self).selected@, s) || s == id@
            } else {
                has_id(old(self).selected@, s) && s != id@
            }),
    {
        if on {
            insert_id(&mut self.selected, id);
        } else {
            remove_id(&mut self.selected, id.as_str());
        }
    }

    /// Whether "save" is enabled: something picked, and no save on its way.
    pub fn can_save(&self) -> (b: bool)
        ensures
            b == (self.selected@.len() > 0 && !self.saving),
    {
        self.selected.len() > 0 && !self.saving
    }

    /// Saves the picked files, once the share is resolved. A destination
    /// with an empty id (the root) sends none.
    pub fn save(&mut self) -> (ask: Option<SaveAsk>)
        ensures
            (old(self).share_id is None || old(self).token is None) ==> ask is None && final(self).saving
                == old(self).saving && final(self).error == old(self).error,
            !(old(self).share_id is None || old(self).token is None) ==> {
                &&& final(self).saving
                &&& final(self).error is None
                &&& ask matches Some(a) && Some(a.share_id@) == opt_view(old(self).share_id) && Some(
                    a.pass_code_token@,
                ) == opt_view(old(self).token) && a.file_ids@.map_values(|s: String| s@)
                    == old(self).selected@.map_values(|s: String| s@) && opt_view(a.dest) == match old(
                    self,
                ).dest {
                    Some(d) => if d.0@.len() == 0 {
                        None
                    } else {
                        Some(d.0@)
                    },
                    None => None,
                }
            },
            final(self).selected@ == old(self).selected@,
    {
        let share_id = match &self.share_id {
            Some(s) => s.clone(),
            None => return None,
        };
        let pass_code_token = match &self.token {
            Some(t) => t.clone(),
            None => return None,
        };
        self.saving = true;
        self.error = None;
        let mut file_ids: Vec<String> = Vec::new();
        let mut i: usize = 0;
        while i < self.selected.len()
            invariant
                0 <= i <= self.selected@.len(),
                file_ids@.map_values(|s: String| s@) == self.selected@.take(i as int).map_values(|s: String| s@),
            decreases self.selected@.len() - i,
        {
            let ghost f0 = file_ids@;
            file_ids.push(self.selected[i].clone());
            proof {
                assert(self.selected@.take(i + 1) == self.selected@.take(i as int).push(self.selected@[i as int]));
                assert(file_ids@.map_values(|s: String| s@) =~= f0.map_values(|s: String| s@).push(
                    self.selected@[i as int]@,
                ));
                assert(self.selected@.take(i + 1).map_values(|s: String| s@) =~= self.selected@.take(
                    i as int,
                ).map_values(|s: String| s@).push(self.selected@[i as int]@));
            }
            i += 1;
        }
        proof {
            assert(self.selected@.take(i as int) == self.selected@);
        }
        let dest = match &self.dest {
            Some(d) => if d.0.as_str().is_empty() {
                None
            } else {
                Some(d.0.clone())
            },
            None => None,
        };
        Some(SaveAsk { share_id, pass_code_token, file_ids, dest })
    }

    /// Saving failed with message `what`.
    pub fn save_failed(&mut self, what: String)
        ensures
            !final(self).saving,
            final(self).error == Some(what),
            final(self).selected@ == old(self).selected@,
    {
        self.saving = false;
        self.error = Some(what);
    }

    /// The destination chosen in the picker (the root too), which closes.
    pub fn choose_dest(&mut self)
        ensures
            !final(self).picker.open,
            match final(self).dest {
                Some(d) => old(self).picker.stack@.len() > 0 ==> d.1 == old(self).picker.stack@.last().1,
                None => false,
            },
    {
        let d = self.picker.confirm_any();
        self.dest = Some(d);
    }
}

/// The rows the filter lets through are rows of the list.
pub proof fn lemma_rows_in_range(files: Seq<File>, filter: Seq<char>)
    ensures
        forall|q: int|
            0 <= q < filtered_rows(files, filter).len() ==> 0 <= #[trigger] filtered_rows(files, filter)[q]
                < files.len(),
{
    let all = Seq::new(files.len(), |i: int| i);
    let pred = |i: int| passes(filter, files[i]);
    assert forall|q: int|
        0 <= q < filtered_rows(files, filter).len() implies 0 <= #[trigger] filtered_rows(files, filter)[q]
        < files.len() by {
        let fr = all.filter(pred);
        assert(fr == filtered_rows(files, filter));
        assert(fr.contains(fr[q]));
        all.lemma_filter_contains_rev(pred, fr[q]);
        let j = choose|j: int| 0 <= j < all.len() && all[j] == fr[q];
        assert(all[j] == j);
    }
}


} // verus!
