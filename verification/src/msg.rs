//! Commands the interface sends to the background worker, and the plain
//! records that travel with its answers.

use vstd::prelude::*;

verus! {

/// An entry found by scanning a drive folder for download (a directory or a
/// file), in pre-order with its depth.
#[derive(Clone, Debug)]
pub struct FolderItem {
    pub is_dir: bool,
    pub name: String,
    /// Depth: the folder card is 0, its direct children 1.
    pub depth: u32,
    /// The drive id of a file entry (empty for directories).
    pub file_id: String,
    /// For a file: its target directory; for a directory: its local path.
    pub dir: String,
}

/// A selectable quality of a video: its label, a time-limited link, and the
/// request headers the server accepts when playing it.
#[derive(Clone, Debug)]
pub struct QualityOption {
    pub label: String,
    pub url: String,
    pub headers: Vec<(String, String)>,
}

/// A command from the interface to the background worker.
#[derive(Debug)]
pub enum Cmd {
    /// Log in with account and password.
    Login {
        username: String,
        password: String,
    },
    /// Log in with the password kept in the system keyring.
    AutoLogin {
        username: String,
    },
    /// Keep the account's password in the system keyring.
    RememberPassword {
        username: String,
        password: String,
    },
    /// Delete the kept password from the system keyring.
    ForgetPassword {
        username: String,
    },
    /// Resume a session saved on disk.
    Resume {
        device_id: String,
        access_token: String,
        refresh_token: String,
        user_id: String,
        username: String,
    },
    /// Log out.
    Logout,
    /// List a folder; `append` asks for the next page.
    ListFiles {
        parent: Option<String>,
        token: Option<String>,
        append: bool,
        req_id: u64,
    },
    /// Search files across folders; `append` asks for the next page.
    SearchFiles {
        keyword: String,
        token: Option<String>,
        append: bool,
        req_id: u64,
    },
    /// Create a folder.
    CreateFolder {
        name: String,
        parent: Option<String>,
    },
    /// Rename an entry.
    Rename {
        id: String,
        name: String,
    },
    /// Move entries to the trash.
    Trash {
        ids: Vec<String>,
    },
    /// List the trash; `append` asks for the next page.
    ListTrash {
        token: Option<String>,
        append: bool,
        req_id: u64,
    },
    /// Restore entries from the trash.
    Untrash {
        ids: Vec<String>,
    },
    /// Delete entries from the trash for good.
    DeleteTrash {
        ids: Vec<String>,
    },
    /// Empty the whole trash.
    EmptyTrash,
    /// Move entries to `dest` (`None` is the root); `src` is the folder they leave.
    MoveTo {
        ids: Vec<String>,
        dest: Option<String>,
        src: Option<String>,
    },
    /// Copy entries to `dest`.
    CopyTo {
        ids: Vec<String>,
        dest: Option<String>,
    },
    /// Create an offline download task.
    OfflineCreate {
        url: String,
        name: Option<String>,
        parent: Option<String>,
    },
    /// List the subfolders of a folder (to pick a target).
    ListFolders {
        parent: Option<String>,
        req_id: u64,
    },
    /// Refresh the offline tasks.
    RefreshTasks,
    /// Load the next page of offline tasks in one phase.
    LoadMoreTasks {
        phase: String,
    },
    /// Retry an offline task.
    OfflineRetry {
        task_id: String,
    },
    /// Delete offline tasks, and their files if asked.
    OfflineDelete {
        task_ids: Vec<String>,
        delete_files: bool,
    },
    /// Refresh the quota.
    RefreshQuota,
    /// Download a file into a local directory.
    StartDownload {
        req_id: u64,
        file_id: String,
        name: String,
        dest_dir: String,
    },
    /// Download a whole folder into a local directory.
    StartDownloadFolder {
        req_id: u64,
        folder_id: String,
        name: String,
        dest_dir: String,
    },
    /// Cancel a download.
    CancelDownload {
        req_id: u64,
    },
    /// Upload a local file.
    StartUpload {
        req_id: u64,
        path: String,
        parent: Option<String>,
    },
    /// Upload a local directory recursively.
    StartUploadDir {
        req_id: u64,
        path: String,
        parent: Option<String>,
    },
    /// Cancel an upload.
    CancelUpload {
        req_id: u64,
    },
    /// Preview a file (media are streamed, other files downloaded to the cache).
    Preview {
        req_id: u64,
        file_id: String,
        name: String,
        media: bool,
        subtitles: Vec<(String, String)>,
    },
    /// Fetch the selectable qualities of a video.
    PreviewQualities {
        file_id: String,
        subtitles: Vec<(String, String)>,
    },
    /// Share files.
    CreateShare {
        file_ids: Vec<String>,
        expiration_days: i64,
        need_password: bool,
        label: String,
    },
    /// List the user's shares; `append` asks for the next page.
    ListShares {
        token: Option<String>,
        append: bool,
        req_id: u64,
    },
    /// Delete shares.
    DeleteShares {
        ids: Vec<String>,
    },
    /// Open someone else's share.
    ResolveShare {
        share_id: String,
        pass_code: String,
    },
    /// Load the next page of an opened share's files.
    LoadMoreShareFiles {
        share_id: String,
        pass_code_token: String,
        page_token: String,
    },
    /// Save files of a share into the drive.
    SaveShare {
        share_id: String,
        pass_code_token: String,
        file_ids: Vec<String>,
        dest: Option<String>,
    },
    /// Retry moving saved share files into `dest`.
    RetryMoveShare {
        dest: String,
    },
    /// Load a thumbnail.
    LoadThumbnail {
        file_id: String,
        url: String,
    },
    /// Change the transfer limits.
    SetTransferLimits {
        dl_concurrency: usize,
        ul_concurrency: usize,
        part_concurrency: usize,
        max_attempts: usize,
    },
    /// Sweep the disk caches (`purge` clears them).
    MaintainCache {
        purge: bool,
    },
}

} // verus!
