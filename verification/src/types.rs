//! Records the drive service answers with, and the small rules read off them.

use vstd::prelude::*;

use crate::json::{member_position, nonempty_str, nonempty_str_member, Json};
use crate::text::{
    chars_of, contains, contains_chars, parse_i64, parse_i64_chars, push_chars, push_str,
    string_from_chars, trim, trim_chars,
};

verus! {

/// A file or folder in the drive.
#[derive(Debug, Clone, Default)]
pub struct File {
    pub id: String,
    pub kind: String,
    pub name: String,
    pub parent_id: Option<String>,
    pub size: i64,
    pub mime_type: Option<String>,
    pub created_time: Option<String>,
    pub modified_time: Option<String>,
    pub user_modified_time: Option<String>,
    /// When the entry was moved to the trash (trash entries only).
    pub delete_time: Option<String>,
    pub trashed: bool,
    pub starred: bool,
    pub phase: Option<String>,
    pub file_extension: Option<String>,
    pub folder_type: Option<String>,
    pub icon_link: Option<String>,
    pub thumbnail_link: Option<String>,
    pub web_content_link: Option<String>,
    pub md5_checksum: Option<String>,
    pub original_url: Option<String>,
}

impl File {
    /// Whether the entry is a folder: its kind mentions "folder".
    pub fn is_folder(&self) -> (b: bool)
        ensures
            b == contains(self.kind@, "folder"@),
    {
        let k = chars_of(self.kind.as_str());
        let p = chars_of("folder");
        contains_chars(&k, &p)
    }
}

/// One page of a folder listing.
#[derive(Debug, Clone, Default)]
pub struct FileList {
    pub files: Vec<File>,
    /// Absent on the last page; an empty token from the server counts as absent.
    pub next_page_token: Option<String>,
}

/// The result of walking a folder tree (for whole-folder downloads).
#[derive(Debug, Clone, Default)]
pub struct FolderWalk {
    /// Directory paths relative to the root, as components; the root itself is
    /// the empty path. Empty directories are included.
    pub dirs: Vec<Vec<String>>,
    /// Files, each with the components of the directory it sits in.
    pub files: Vec<(Vec<String>, File)>,
}

/// Storage and playback quota.
#[derive(Debug, Clone, Copy, Default)]
pub struct Quota {
    pub limit: i64,
    pub usage: i64,
    pub usage_in_trash: i64,
    pub play_times_limit: i64,
    pub play_times_usage: i64,
}

#[derive(Debug, Clone, Copy, Default)]
pub struct QuotaResponse {
    pub quota: Quota,
}

#[derive(Debug, Clone)]
pub struct TokenResponse {
    pub access_token: String,
    pub refresh_token: String,
    pub sub: Option<String>,
    pub expires_in: Option<i64>,
}

/// A page of offline-download tasks, each kept as the raw JSON object.
#[derive(Debug)]
pub struct Tasks {
    pub tasks: Vec<Json>,
    pub next_page_token: Option<String>,
}

/// The `tasks` array of a task-list response (empty when missing or not an array).
pub open spec fn tasks_of(value: Json) -> Seq<Json> {
    match value.spec_get("tasks"@) {
        Some(Json::Arr(a)) => a@,
        _ => Seq::empty(),
    }
}

/// An optional string mapped to its view.
pub open spec fn opt_view(o: Option<String>) -> Option<Seq<char>> {
    match o {
        Some(s) => Some(s@),
        None => None,
    }
}

impl Tasks {
    /// Reads a task-list response: the `tasks` array (empty when missing) and a
    /// non-empty `next_page_token`.
    pub fn parse(value: Json) -> (t: Tasks)
        ensures
            t.tasks@ == tasks_of(value),
            opt_view(t.next_page_token) == nonempty_str(value.spec_get("next_page_token"@)),
    {
        let next_page_token = match nonempty_str_member(&value, "next_page_token") {
            Some(s) => Some(s.clone()),
            None => None,
        };
        let tasks = match value {
            Json::Obj(mut ms) => match member_position(&ms, "tasks") {
                Some(i) => {
                    let (_, v) = ms.remove(i);
                    match v {
                        Json::Arr(a) => a,
                        _ => Vec::new(),
                    }
                },
                None => Vec::new(),
            },
            _ => Vec::new(),
        };
        Tasks { tasks, next_page_token }
    }
}

/// The first of `keys` whose member is a non-empty string.
pub open spec fn first_str(task: Json, keys: Seq<Seq<char>>) -> Option<Seq<char>>
    decreases keys.len(),
{
    if keys.len() == 0 {
        None
    } else {
        match nonempty_str(task.spec_get(keys[0])) {
            Some(s) => Some(s),
            None => first_str(task, keys.drop_first()),
        }
    }
}

/// The first of `keys` whose member is an integer, or a string that parses as one.
pub open spec fn first_i64(task: Json, keys: Seq<Seq<char>>) -> Option<i64>
    decreases keys.len(),
{
    if keys.len() == 0 {
        None
    } else {
        let rest = first_i64(task, keys.drop_first());
        match task.spec_get(keys[0]) {
            Some(v) => match v.spec_i64() {
                Some(n) => Some(n),
                None => match v.spec_str() {
                    Some(s) => match parse_i64(s) {
                        Some(n) => Some(n),
                        None => rest,
                    },
                    None => rest,
                },
            },
            None => rest,
        }
    }
}

/// The views of a list of keys.
pub open spec fn key_views(keys: Seq<&str>) -> Seq<Seq<char>> {
    keys.map_values(|k: &str| k@)
}

/// The first non-empty string among the members `keys` of a task.
pub fn task_str(task: &Json, keys: &[&str]) -> (r: Option<String>)
    ensures
        opt_view(r) == first_str(*task, key_views(keys@)),
{
    let mut i: usize = keys.len();
    let mut found: Option<String> = None;
    while i > 0
        invariant
            0 <= i <= keys@.len(),
            opt_view(found) == first_str(*task, key_views(keys@).skip(i as int)),
        decreases i,
    {
        i -= 1;
        proof {
            let ks = key_views(keys@);
            assert(ks.skip(i as int).drop_first() == ks.skip(i + 1));
            assert(ks.skip(i as int)[0] == keys@[i as int]@);
        }
        match nonempty_str_member(task, keys[i]) {
            Some(s) => {
                found = Some(s.clone());
            },
            None => {},
        }
    }
    assert(key_views(keys@).skip(0) == key_views(keys@));
    found
}

/// The first integer among the members `keys` of a task; a string member counts
/// when it parses as an `i64`.
pub fn task_i64(task: &Json, keys: &[&str]) -> (r: Option<i64>)
    ensures
        r == first_i64(*task, key_views(keys@)),
{
    let mut i: usize = keys.len();
    let mut found: Option<i64> = None;
    while i > 0
        invariant
            0 <= i <= keys@.len(),
            found == first_i64(*task, key_views(keys@).skip(i as int)),
        decreases i,
    {
        i -= 1;
        proof {
            let ks = key_views(keys@);
            assert(ks.skip(i as int).drop_first() == ks.skip(i + 1));
            assert(ks.skip(i as int)[0] == keys@[i as int]@);
        }
        match task.get(keys[i]) {
            Some(v) => match v.as_i64() {
                Some(n) => {
                    found = Some(n);
                },
                None => match v.as_str() {
                    Some(s) => {
                        let cs = chars_of(s.as_str());
                        match parse_i64_chars(&cs) {
                            Some(n) => {
                                found = Some(n);
                            },
                            None => {},
                        }
                    },
                    None => {},
                },
            },
            None => {},
        }
    }
    assert(key_views(keys@).skip(0) == key_views(keys@));
    found
}

/// The task's id.
pub fn task_id(task: &Json) -> (r: Option<String>)
    ensures
        opt_view(r) == first_str(*task, seq!["id"@]),
{
    let keys: [&str; 1] = ["id"];
    let r = task_str(task, &keys);
    assert(key_views(keys@) == seq!["id"@]);
    r
}

/// The task's name (`name`, else `file_name`).
pub fn task_name(task: &Json) -> (r: Option<String>)
    ensures
        opt_view(r) == first_str(*task, seq!["name"@, "file_name"@]),
{
    let keys: [&str; 2] = ["name", "file_name"];
    let r = task_str(task, &keys);
    assert(key_views(keys@) == seq!["name"@, "file_name"@]);
    r
}

/// The id of the file the task produced.
pub fn task_file_id(task: &Json) -> (r: Option<String>)
    ensures
        opt_view(r) == first_str(*task, seq!["file_id"@]),
{
    let keys: [&str; 1] = ["file_id"];
    let r = task_str(task, &keys);
    assert(key_views(keys@) == seq!["file_id"@]);
    r
}

/// The task's size in bytes (`file_size`, else `size`).
pub fn task_size(task: &Json) -> (r: Option<i64>)
    ensures
        r == first_i64(*task, seq!["file_size"@, "size"@]),
{
    let keys: [&str; 2] = ["file_size", "size"];
    let r = task_i64(task, &keys);
    assert(key_views(keys@) == seq!["file_size"@, "size"@]);
    r
}

/// When the task was created (`created_time`, else `created_at`).
pub fn task_created(task: &Json) -> (r: Option<String>)
    ensures
        opt_view(r) == first_str(*task, seq!["created_time"@, "created_at"@]),
{
    let keys: [&str; 2] = ["created_time", "created_at"];
    let r = task_str(task, &keys);
    assert(key_views(keys@) == seq!["created_time"@, "created_at"@]);
    r
}

/// The URL the task downloads from.
pub fn task_original_url(task: &Json) -> (r: Option<String>)
    ensures
        opt_view(r) == first_str(*task, seq!["original_url"@]),
{
    let keys: [&str; 1] = ["original_url"];
    let r = task_str(task, &keys);
    assert(key_views(keys@) == seq!["original_url"@]);
    r
}

/// One of the user's own shares. Counters come from the server as numbers or
/// strings and are kept as text.
#[derive(Debug, Clone, Default)]
pub struct Share {
    pub share_id: String,
    pub share_url: String,
    pub title: String,
    pub pass_code: String,
    pub share_to: String,
    pub create_time: String,
    pub expiration_days: String,
    pub view_count: String,
    pub restore_count: String,
    pub file_num: String,
    pub share_status: String,
}

/// The validity label of a share with `days` as its expiration field.
pub open spec fn expiry_text(days: Seq<char>) -> Seq<char> {
    let d = trim(days);
    if d == ""@ || d == "-1"@ || d == "0"@ {
        "永久"@
    } else {
        d + " 天"@
    }
}

impl Share {
    /// Whether the share is private and needs an access code.
    pub fn needs_pass_code(&self) -> (b: bool)
        ensures
            b == (self.pass_code@.len() > 0 || contains(self.share_to@, "encrypted"@)),
    {
        if !self.pass_code.as_str().is_empty() {
            return true;
        }
        let to = chars_of(self.share_to.as_str());
        let p = chars_of("encrypted");
        contains_chars(&to, &p)
    }

    /// How long the share stays valid: permanent, or a number of days.
    pub fn expiry_label(&self) -> (r: String)
        ensures
            r@ == expiry_text(self.expiration_days@),
    {
        let d = trim_chars(&chars_of(self.expiration_days.as_str()));
        if crate::text::chars_eq_str(&d, "") || crate::text::chars_eq_str(&d, "-1")
            || crate::text::chars_eq_str(&d, "0") {
            "永久".to_owned()
        } else {
            let mut out: Vec<char> = Vec::new();
            push_chars(&mut out, &d);
            push_str(&mut out, " 天");
            string_from_chars(&out)
        }
    }

    /// Whether the share has expired or is otherwise unavailable (status other than OK).
    pub fn is_unavailable(&self) -> (b: bool)
        ensures
            b == (self.share_status@.len() > 0 && self.share_status@ != "OK"@),
    {
        !self.share_status.as_str().is_empty() && !crate::text::str_eq(self.share_status.as_str(), "OK")
    }

    /// The number of files in the share; 0 when the field is not a number.
    pub fn file_count(&self) -> (n: i64)
        ensures
            n == match parse_i64(trim(self.file_num@)) {
                Some(v) => v,
                None => 0,
            },
    {
        let t = trim_chars(&chars_of(self.file_num.as_str()));
        match parse_i64_chars(&t) {
            Some(v) => v,
            None => 0,
        }
    }
}

/// A page of the user's shares.
#[derive(Debug, Clone, Default)]
pub struct ShareList {
    pub shares: Vec<Share>,
    pub next_page_token: Option<String>,
}

/// The answer to creating a share.
#[derive(Debug, Clone, Default)]
pub struct ShareCreated {
    pub share_id: String,
    pub share_url: String,
    pub pass_code: String,
    pub share_text: String,
}

/// Someone else's share as opened from its link: its files and the token that
/// later pages and a restore must carry.
#[derive(Debug, Clone, Default)]
pub struct ShareDetail {
    pub share_status: String,
    pub title: String,
    pub pass_code_token: String,
    pub files: Vec<File>,
    pub next_page_token: Option<String>,
}

/// The answer to restoring (saving) a share into the drive.
#[derive(Debug, Clone, Default)]
pub struct ShareRestoreResult {
    pub restore_status: String,
    pub restore_task_id: String,
}

/// A page token as the server sent it: an empty token means there is no next page.
pub fn page_token(t: Option<String>) -> (r: Option<String>)
    ensures
        opt_view(r) == match opt_view(t) {
            Some(s) => if s.len() > 0 {
                Some(s)
            } else {
                None
            },
            None => None,
        },
{
    match t {
        Some(s) => if s.as_str().is_empty() {
            None
        } else {
            Some(s)
        },
        None => None,
    }
}

/// The value of a numeric field that the server sent as a string: the trimmed
/// text as an `i64`, or 0 when it is not one.
pub fn number_from_text(s: &str) -> (n: i64)
    ensures
        n == match parse_i64(trim(s@)) {
            Some(v) => v,
            None => 0,
        },
{
    let t = trim_chars(&chars_of(s));
    match parse_i64_chars(&t) {
        Some(v) => v,
        None => 0,
    }
}

} // verus!
