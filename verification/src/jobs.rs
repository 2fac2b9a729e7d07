//! Download jobs as the transfer page shows them: status roll-up of a folder
//! download's files, and per-directory file counts of its tree.

use vstd::prelude::*;

use crate::settings::DownloadRecordStatus;
use crate::text::{dec, push_dec, push_str, string_from_chars};

verus! {

/// State of a download job.
#[derive(Debug, Clone, PartialEq)]
pub enum DlStatus {
    Queued,
    Running,
    Done,
    Failed(String),
}

/// A download job: one file (possibly part of a folder download), or a
/// whole folder.
#[derive(Debug, Clone)]
pub struct DlJob {
    pub file_id: String,
    /// Id of the job's history record; empty until one is written.
    pub record_id: String,
    pub name: String,
    /// Target directory.
    pub dir: String,
    pub total: u64,
    pub done: u64,
    pub status: DlStatus,
    /// Current speed in bytes per second.
    pub speed: u64,
    /// Progress at the last speed sample, and when it was taken (milliseconds).
    pub last_done: u64,
    pub last_at: Option<u64>,
    /// When the job finished or failed (unix seconds).
    pub at: Option<u64>,
    /// For a folder download: the folder's drive id.
    pub folder_id: Option<String>,
    /// For a file of a folder download: the folder job's id.
    pub parent: Option<u64>,
    /// For a folder download: its tree, in pre-order.
    pub nodes: Vec<DlNode>,
    /// Whether a folder's tree is shown.
    pub expanded: bool,
    /// For a folder download: finished and total files.
    pub files_done: usize,
    pub files_total: usize,
}

/// A job that has not started: nothing done, no history record, no tree.
pub open spec fn fresh(j: DlJob, file_id: String, name: String, dir: String) -> bool {
    &&& j.file_id == file_id
    &&& j.record_id@ == Seq::<char>::empty()
    &&& j.name == name
    &&& j.dir == dir
    &&& j.total == 0
    &&& j.done == 0
    &&& j.status == DlStatus::Queued
    &&& j.speed == 0
    &&& j.last_done == 0
    &&& j.last_at is None
    &&& j.at is None
    &&& j.nodes@.len() == 0
    &&& !j.expanded
    &&& j.files_done == 0
    &&& j.files_total == 0
}

impl DlJob {
    /// A single-file job that has not started yet.
    pub fn queued(file_id: String, name: String, dir: String) -> (j: DlJob)
        ensures
            fresh(j, file_id, name, dir),
            j.folder_id is None,
            j.parent is None,
    {
        DlJob {
            file_id,
            record_id: String::new(),
            name,
            dir,
            total: 0,
            done: 0,
            status: DlStatus::Queued,
            speed: 0,
            last_done: 0,
            last_at: None,
            at: None,
            folder_id: None,
            parent: None,
            nodes: Vec::new(),
            expanded: false,
            files_done: 0,
            files_total: 0,
        }
    }

    /// A file job of the folder download `parent`.
    pub fn child(file_id: String, name: String, dir: String, parent: u64) -> (j: DlJob)
        ensures
            fresh(j, file_id, name, dir),
            j.folder_id is None,
            j.parent == Some(parent),
    {
        let mut j = DlJob::queued(file_id, name, dir);
        j.parent = Some(parent);
        j
    }

    /// A folder download that waits for its tree to be scanned.
    pub fn folder(folder_id: String, name: String, dir: String) -> (j: DlJob)
        ensures
            fresh(j, folder_id, name, dir),
            j.folder_id == Some(folder_id),
            j.parent is None,
    {
        let mut j = DlJob::queued(folder_id.clone(), name, dir);
        j.folder_id = Some(folder_id);
        j
    }

    /// Whether the job downloads a whole folder.
    pub fn is_folder(&self) -> (b: bool)
        ensures
            b == (self.folder_id is Some),
    {
        self.folder_id.is_some()
    }
}

/// Which download jobs the transfer page lists.
#[derive(Debug, Clone, Copy, PartialEq, Eq)]
pub enum DlFilter {
    All,
    /// Queued or running.
    Active,
    Done,
    Failed,
}

/// Whether a job status passes a filter.
pub open spec fn dl_filter_passes(f: DlFilter, s: DlStatus) -> bool {
    match f {
        DlFilter::All => true,
        DlFilter::Active => s is Queued || s is Running,
        DlFilter::Done => s is Done,
        DlFilter::Failed => s is Failed,
    }
}

impl DlFilter {
    /// Whether the filter lets `j` through.
    pub fn matches(&self, j: &DlJob) -> (b: bool)
        ensures
            b == dl_filter_passes(*self, j.status),
            *self is All ==> b,
            *self is Active ==> (b <==> (j.status is Queued || j.status is Running)),
            *self is Done ==> (b <==> j.status is Done),
            *self is Failed ==> (b <==> j.status is Failed),
    {
        match self {
            DlFilter::All => true,
            DlFilter::Active => matches!(j.status, DlStatus::Queued | DlStatus::Running),
            DlFilter::Done => matches!(j.status, DlStatus::Done),
            DlFilter::Failed => matches!(j.status, DlStatus::Failed(_)),
        }
    }
}

/// State of an upload job.
#[derive(Debug, Clone, PartialEq)]
pub enum UlStatus {
    Queued,
    Running,
    Done,
    Failed(String),
}

/// An upload job: one local file, or a whole local directory.
#[derive(Debug, Clone)]
pub struct UlJob {
    pub local_path: String,
    pub name: String,
    /// Target folder in the drive (`None` is the root).
    pub parent: Option<String>,
    /// The target folder's breadcrumb, as (id, label) pairs.
    pub dest_stack: Vec<(Option<String>, String)>,
    pub total: u64,
    pub done: u64,
    pub status: UlStatus,
    pub speed: u64,
    pub last_done: u64,
    pub last_at: Option<u64>,
    /// Id of the job's history record; empty until one is written.
    pub record_id: String,
    pub is_dir: bool,
    /// For a directory: files uploaded so far, and in all.
    pub files_done: usize,
    pub files_total: usize,
    /// For a directory: the file being uploaded.
    pub current: String,
    /// When the job finished or failed (unix seconds).
    pub at: Option<u64>,
}

/// An upload job that has not started: nothing done, no history record.
pub open spec fn ul_fresh(
    j: UlJob,
    local_path: Seq<char>,
    name: Seq<char>,
    parent: Option<String>,
    dest_stack: Seq<(Option<String>, String)>,
    is_dir: bool,
) -> bool {
    &&& j.local_path@ == local_path
    &&& j.name@ == name
    &&& j.parent == parent
    &&& j.dest_stack@ == dest_stack
    &&& j.total == 0
    &&& j.done == 0
    &&& j.status == UlStatus::Queued
    &&& j.speed == 0
    &&& j.last_done == 0
    &&& j.last_at is None
    &&& j.record_id@ == Seq::<char>::empty()
    &&& j.is_dir == is_dir
    &&& j.files_done == 0
    &&& j.files_total == 0
    &&& j.current@ == Seq::<char>::empty()
    &&& j.at is None
}

impl UlJob {
    /// A single-file upload that has not started yet.
    pub fn queued(
        local_path: String,
        name: String,
        parent: Option<String>,
        dest_stack: Vec<(Option<String>, String)>,
    ) -> (j: UlJob)
        ensures
            ul_fresh(j, local_path@, name@, parent, dest_stack@, false),
    {
        UlJob {
            local_path,
            name,
            parent,
            dest_stack,
            total: 0,
            done: 0,
            status: UlStatus::Queued,
            speed: 0,
            last_done: 0,
            last_at: None,
            record_id: String::new(),
            is_dir: false,
            files_done: 0,
            files_total: 0,
            current: String::new(),
            at: None,
        }
    }

    /// A directory upload that has not started yet.
    pub fn queued_dir(
        local_path: String,
        name: String,
        parent: Option<String>,
        dest_stack: Vec<(Option<String>, String)>,
    ) -> (j: UlJob)
        ensures
            ul_fresh(j, local_path@, name@, parent, dest_stack@, true),
    {
        let mut j = UlJob::queued(local_path, name, parent, dest_stack);
        j.is_dir = true;
        j
    }
}

/// Which upload jobs the transfer page lists.
#[derive(Debug, Clone, Copy, PartialEq, Eq)]
pub enum UlFilter {
    All,
    /// Queued or running.
    Active,
    Done,
    Failed,
}

/// Whether an upload status passes a filter.
pub open spec fn ul_filter_passes(f: UlFilter, s: UlStatus) -> bool {
    match f {
        UlFilter::All => true,
        UlFilter::Active => s is Queued || s is Running,
        UlFilter::Done => s is Done,
        UlFilter::Failed => s is Failed,
    }
}

impl UlFilter {
    /// Whether the filter lets `j` through.
    pub fn matches(&self, j: &UlJob) -> (b: bool)
        ensures
            b == ul_filter_passes(*self, j.status),
            *self is All ==> b,
            *self is Active ==> (b <==> (j.status is Queued || j.status is Running)),
            *self is Done ==> (b <==> j.status is Done),
            *self is Failed ==> (b <==> j.status is Failed),
    {
        match self {
            UlFilter::All => true,
            UlFilter::Active => matches!(j.status, UlStatus::Queued | UlStatus::Running),
            UlFilter::Done => matches!(j.status, UlStatus::Done),
            UlFilter::Failed => matches!(j.status, UlStatus::Failed(_)),
        }
    }
}

/// Every download job is listed under "all", and under exactly one of the
/// "active", "done" and "failed" tabs: a queued or running job is active.
pub proof fn lemma_dl_tabs_partition(s: DlStatus)
    ensures
        dl_filter_passes(DlFilter::All, s),
        dl_filter_passes(DlFilter::Active, s) <==> (s is Queued || s is Running),
        dl_filter_passes(DlFilter::Active, s) || dl_filter_passes(DlFilter::Done, s)
            || dl_filter_passes(DlFilter::Failed, s),
        !(dl_filter_passes(DlFilter::Active, s) && dl_filter_passes(DlFilter::Done, s)),
        !(dl_filter_passes(DlFilter::Active, s) && dl_filter_passes(DlFilter::Failed, s)),
        !(dl_filter_passes(DlFilter::Done, s) && dl_filter_passes(DlFilter::Failed, s)),
{
}

/// Every upload job is listed under "all", and under exactly one of the
/// "active", "done" and "failed" tabs: a queued or running upload is active.
pub proof fn lemma_ul_tabs_partition(s: UlStatus)
    ensures
        ul_filter_passes(UlFilter::All, s),
        ul_filter_passes(UlFilter::Active, s) <==> (s is Queued || s is Running),
        ul_filter_passes(UlFilter::Active, s) || ul_filter_passes(UlFilter::Done, s)
            || ul_filter_passes(UlFilter::Failed, s),
        !(ul_filter_passes(UlFilter::Active, s) && ul_filter_passes(UlFilter::Done, s)),
        !(ul_filter_passes(UlFilter::Active, s) && ul_filter_passes(UlFilter::Failed, s)),
        !(ul_filter_passes(UlFilter::Done, s) && ul_filter_passes(UlFilter::Failed, s)),
{
}

/// A row of a folder download's tree, in pre-order (a directory before its
/// descendants).
#[derive(Debug, Clone)]
pub struct DlNode {
    pub is_dir: bool,
    pub name: String,
    /// Depth in the tree; a directory's descendants are the rows after it that
    /// are deeper than it.
    pub depth: u32,
    /// The job of a file row (none for directories).
    pub rid: Option<u64>,
    pub expanded: bool,
    /// For a directory: finished and total files in its subtree.
    pub files_done: usize,
    pub files_total: usize,
    /// For a file: whether it finished.
    pub done: bool,
}

/// Whether a record status stands for a job status.
pub open spec fn records(r: DownloadRecordStatus, s: DlStatus) -> bool {
    match s {
        DlStatus::Done => r is Done,
        DlStatus::Failed(w) => r matches DownloadRecordStatus::Failed(x) && x@ == w@,
        _ => r matches DownloadRecordStatus::Failed(x) && x@ == "未完成"@,
    }
}

/// The history status for a job's status.
pub fn dl_record_status(s: &DlStatus) -> (r: DownloadRecordStatus)
    ensures
        records(r, *s),
{
    match s {
        DlStatus::Done => DownloadRecordStatus::Done,
        DlStatus::Failed(w) => DownloadRecordStatus::Failed(w.clone()),
        DlStatus::Queued | DlStatus::Running => DownloadRecordStatus::Failed("未完成".to_owned()),
    }
}

/// Sum of `f` over the jobs.
pub open spec fn sum_of(s: Seq<&DlJob>, f: spec_fn(DlJob) -> u64) -> int
    decreases s.len(),
{
    if s.len() == 0 {
        0
    } else {
        sum_of(s.drop_last(), f) + f(*s.last())
    }
}

/// How many jobs satisfy `p`.
pub open spec fn count_of(s: Seq<&DlJob>, p: spec_fn(DlJob) -> bool) -> int
    decreases s.len(),
{
    if s.len() == 0 {
        0
    } else {
        count_of(s.drop_last(), p) + if p(*s.last()) {
            1int
        } else {
            0int
        }
    }
}

pub open spec fn job_total(j: DlJob) -> u64 {
    j.total
}

pub open spec fn job_done(j: DlJob) -> u64 {
    j.done
}

/// Speed of a job that is running (others contribute nothing).
pub open spec fn running_speed(j: DlJob) -> u64 {
    if j.status is Running {
        j.speed
    } else {
        0
    }
}

pub open spec fn is_done(j: DlJob) -> bool {
    j.status is Done
}

pub open spec fn is_failed(j: DlJob) -> bool {
    j.status is Failed
}

pub open spec fn is_running(j: DlJob) -> bool {
    j.status is Running
}

/// A sum that stops at `u64::MAX`.
pub open spec fn capped(x: int) -> u64 {
    if x > u64::MAX {
        u64::MAX
    } else {
        x as u64
    }
}

/// The folder status: any failure wins, then all done, then any running, else queued.
pub open spec fn folder_status_matches(st: DlStatus, children: Seq<&DlJob>) -> bool {
    let fails = count_of(children, |j: DlJob| is_failed(j));
    if fails > 0 {
        st matches DlStatus::Failed(w) && w@ == dec(fails as nat) + " 个文件失败"@
    } else if children.len() > 0 && count_of(children, |j: DlJob| is_done(j)) == children.len() {
        st == DlStatus::Done
    } else if count_of(children, |j: DlJob| is_running(j)) > 0 {
        st == DlStatus::Running
    } else {
        st == DlStatus::Queued
    }
}

proof fn lemma_sum_nonneg(s: Seq<&DlJob>, f: spec_fn(DlJob) -> u64)
    ensures
        sum_of(s, f) >= 0,
    decreases s.len(),
{
    if s.len() > 0 {
        lemma_sum_nonneg(s.drop_last(), f);
    }
}

proof fn lemma_count_bounds(s: Seq<&DlJob>, p: spec_fn(DlJob) -> bool)
    ensures
        0 <= count_of(s, p) <= s.len(),
    decreases s.len(),
{
    if s.len() > 0 {
        lemma_count_bounds(s.drop_last(), p);
    }
}

proof fn lemma_count_some(s: Seq<&DlJob>, p: spec_fn(DlJob) -> bool)
    ensures
        count_of(s, p) > 0 <==> exists|k: int| 0 <= k < s.len() && p(*#[trigger] s[k]),
        count_of(s, p) == s.len() <==> forall|k: int| 0 <= k < s.len() ==> p(*#[trigger] s[k]),
    decreases s.len(),
{
    if s.len() > 0 {
        let t = s.drop_last();
        lemma_count_some(t, p);
        lemma_count_bounds(t, p);
        assert forall|k: int| 0 <= k < t.len() implies t[k] == s[k] by {}
        assert(s.last() == s[s.len() - 1]);
        if exists|k: int| 0 <= k < s.len() && p(*#[trigger] s[k]) {
            let k = choose|k: int| 0 <= k < s.len() && p(*#[trigger] s[k]);
            if k < s.len() - 1 {
                assert(p(*t[k]));
            }
        }
        if forall|k: int| 0 <= k < s.len() ==> p(*#[trigger] s[k]) {
            assert forall|k: int| 0 <= k < t.len() implies p(*#[trigger] t[k]) by {
                assert(p(*s[k]));
            }
            assert(p(*s[s.len() - 1]));
        }
        if count_of(s, p) == s.len() {
            assert forall|k: int| 0 <= k < s.len() implies p(*#[trigger] s[k]) by {
                if k < s.len() - 1 {
                    assert(p(*t[k]));
                }
            }
        }
    }
}

proof fn lemma_sum_zero(s: Seq<&DlJob>, f: spec_fn(DlJob) -> u64)
    requires
        forall|k: int| 0 <= k < s.len() ==> f(*#[trigger] s[k]) == 0,
    ensures
        sum_of(s, f) == 0,
    decreases s.len(),
{
    if s.len() > 0 {
        let t = s.drop_last();
        assert forall|k: int| 0 <= k < t.len() implies f(*#[trigger] t[k]) == 0 by {
            assert(t[k] == s[k]);
        }
        lemma_sum_zero(t, f);
        assert(f(*s.last()) == 0) by {
            assert(s.last() == s[s.len() - 1]);
        }
    }
}

/// Rolls up a folder download's file jobs: (total size, bytes done, speed of
/// the running ones, folder status). The sums saturate at `u64::MAX`.
pub fn aggregate_children(children: &[&DlJob]) -> (r: (u64, u64, u64, DlStatus))
    ensures
        r.0 == capped(sum_of(children@, |j: DlJob| job_total(j))),
        r.1 == capped(sum_of(children@, |j: DlJob| job_done(j))),
        r.0 == capped(sum_of(children@, |j: DlJob| j.total)),
        r.1 == capped(sum_of(children@, |j: DlJob| j.done)),
        r.2 == capped(sum_of(children@, |j: DlJob| running_speed(j))),
        r.2 == capped(
            sum_of(
                children@,
                |j: DlJob|
                    if j.status is Running {
                        j.speed
                    } else {
                        0u64
                    },
            ),
        ),
        (forall|k: int| 0 <= k < children@.len() ==> !(#[trigger] children@[k].status is Running))
            ==> r.2 == 0,
        folder_status_matches(r.3, children@),
        r.3 is Failed <==> exists|k: int|
            0 <= k < children@.len() && (#[trigger] children@[k]).status is Failed,
        r.3 is Done <==> (children@.len() > 0 && forall|k: int|
            0 <= k < children@.len() ==> (#[trigger] children@[k]).status is Done),
        r.3 is Running <==> ((forall|k: int|
            0 <= k < children@.len() ==> !((#[trigger] children@[k]).status is Failed)) && exists|
            k: int,
        | 0 <= k < children@.len() && (#[trigger] children@[k]).status is Running),
{
    let ghost ft = |j: DlJob| job_total(j);
    let ghost fd = |j: DlJob| job_done(j);
    let ghost fs = |j: DlJob| running_speed(j);
    let ghost pd = |j: DlJob| is_done(j);
    let ghost pf = |j: DlJob| is_failed(j);
    let ghost pr = |j: DlJob| is_running(j);
    let mut total: u64 = 0;
    let mut done: u64 = 0;
    let mut speed: u64 = 0;
    let mut done_n: usize = 0;
    let mut fail_n: usize = 0;
    let mut active = false;
    let mut i: usize = 0;
    while i < children.len()
        invariant
            0 <= i <= children@.len(),
            total == capped(sum_of(children@.take(i as int), ft)),
            done == capped(sum_of(children@.take(i as int), fd)),
            speed == capped(sum_of(children@.take(i as int), fs)),
            done_n == count_of(children@.take(i as int), pd),
            fail_n == count_of(children@.take(i as int), pf),
            active == (count_of(children@.take(i as int), pr) > 0),
            ft == (|j: DlJob| job_total(j)),
            fd == (|j: DlJob| job_done(j)),
            fs == (|j: DlJob| running_speed(j)),
            pd == (|j: DlJob| is_done(j)),
            pf == (|j: DlJob| is_failed(j)),
            pr == (|j: DlJob| is_running(j)),
        decreases children@.len() - i,
    {
        let c = children[i];
        let ghost pre = children@.take(i as int);
        proof {
            assert(children@.take(i + 1).drop_last() == pre);
            assert(children@.take(i + 1).last() == c);
            lemma_count_bounds(pre, pd);
            lemma_count_bounds(pre, pf);
            lemma_count_bounds(pre, pr);
            lemma_sum_nonneg(pre, ft);
            lemma_sum_nonneg(pre, fd);
            lemma_sum_nonneg(pre, fs);
        }
        total = total.saturating_add(c.total);
        done = done.saturating_add(c.done);
        match &c.status {
            DlStatus::Done => {
                done_n = done_n + 1;
            },
            DlStatus::Failed(_) => {
                fail_n = fail_n + 1;
            },
            DlStatus::Running => {
                active = true;
                speed = speed.saturating_add(c.speed);
            },
            DlStatus::Queued => {},
        }
        i += 1;
    }
    assert(children@.take(children@.len() as int) == children@);
    proof {
        let direct = |j: DlJob|
            if j.status is Running {
                j.speed
            } else {
                0u64
            };
        assert(fs =~= direct);
        assert(ft =~= (|j: DlJob| j.total));
        assert(fd =~= (|j: DlJob| j.done));
        lemma_count_some(children@, pd);
        lemma_count_some(children@, pf);
        lemma_count_some(children@, pr);
        if forall|k: int| 0 <= k < children@.len() ==> !(#[trigger] children@[k].status is Running) {
            lemma_sum_zero(children@, direct);
        }
    }
    let status = if fail_n > 0 {
        let mut msg: Vec<char> = Vec::new();
        push_dec(&mut msg, fail_n as u64);
        push_str(&mut msg, " 个文件失败");
        DlStatus::Failed(string_from_chars(&msg))
    } else if children.len() > 0 && done_n == children.len() {
        DlStatus::Done
    } else if active {
        DlStatus::Running
    } else {
        DlStatus::Queued
    };
    (total, done, speed, status)
}

/// Whether row `j` lies in the subtree of row `i`: it comes after `i`, and no
/// row from `i` (exclusive) to `j` (inclusive) is as shallow as `i`.
pub open spec fn in_subtree(nodes: Seq<DlNode>, i: int, j: int) -> bool {
    &&& 0 <= i < j < nodes.len()
    &&& forall|k: int| i < k <= j ==> #[trigger] nodes[k].depth > nodes[i].depth
}

/// Whether a row is a file row with a job.
pub open spec fn counted_file(n: DlNode) -> bool {
    !n.is_dir && n.rid is Some
}

/// Number of rows in `[lo, hi)` that are file rows with a job (and, when
/// `need_done`, finished).
pub open spec fn count_files(nodes: Seq<DlNode>, lo: int, hi: int, need_done: bool) -> nat
    decreases hi - lo,
{
    if hi <= lo {
        0
    } else {
        count_files(nodes, lo, hi - 1, need_done) + if counted_file(nodes[hi - 1]) && (!need_done
            || nodes[hi - 1].done) {
            1nat
        } else {
            0nat
        }
    }
}

/// Index of the first row at or after `from` that is not deeper than row `i`,
/// or the number of rows.
pub open spec fn first_shallow(nodes: Seq<DlNode>, i: int, from: int) -> int
    decreases nodes.len() - from,
{
    if from >= nodes.len() || from < 0 {
        nodes.len() as int
    } else if nodes[from].depth <= nodes[i].depth {
        from
    } else {
        first_shallow(nodes, i, from + 1)
    }
}

/// End (exclusive) of the subtree of row `i`: the first later row that is not deeper.
pub open spec fn subtree_end(nodes: Seq<DlNode>, i: int) -> int {
    first_shallow(nodes, i, i + 1)
}

pub proof fn lemma_first_shallow(nodes: Seq<DlNode>, i: int, from: int)
    requires
        0 <= i < nodes.len(),
        i < from <= nodes.len(),
    ensures
        from <= first_shallow(nodes, i, from) <= nodes.len(),
        forall|m: int| from <= m < first_shallow(nodes, i, from) ==> #[trigger] nodes[m].depth > nodes[i].depth,
        first_shallow(nodes, i, from) < nodes.len() ==> nodes[first_shallow(nodes, i, from)].depth
            <= nodes[i].depth,
    decreases nodes.len() - from,
{
    if from < nodes.len() && nodes[from].depth > nodes[i].depth {
        lemma_first_shallow(nodes, i, from + 1);
    }
}

/// The rows counted for directory row `i` are exactly its descendants: those
/// that `in_subtree` places below it.
pub proof fn lemma_subtree_rows(nodes: Seq<DlNode>, i: int, j: int)
    requires
        0 <= i < nodes.len(),
    ensures
        in_subtree(nodes, i, j) <==> (i < j < subtree_end(nodes, i)),
        subtree_end(nodes, i) <= nodes.len(),
{
    lemma_first_shallow(nodes, i, i + 1);
    let e = subtree_end(nodes, i);
    if in_subtree(nodes, i, j) && e <= j {
        assert(nodes[e].depth > nodes[i].depth);
    }
}

/// Row `i` after the counts are filled in: a directory holds the numbers of
/// finished and of all file rows in its subtree; other rows are unchanged.
pub open spec fn counted_row(nodes: Seq<DlNode>, i: int) -> DlNode {
    if nodes[i].is_dir {
        DlNode {
            files_done: count_files(nodes, i + 1, subtree_end(nodes, i), true) as usize,
            files_total: count_files(nodes, i + 1, subtree_end(nodes, i), false) as usize,
            ..nodes[i]
        }
    } else {
        nodes[i]
    }
}

pub proof fn lemma_count_files_le(nodes: Seq<DlNode>, lo: int, hi: int, need_done: bool)
    requires
        lo <= hi,
    ensures
        count_files(nodes, lo, hi, need_done) <= hi - lo,
        count_files(nodes, lo, hi, true) <= count_files(nodes, lo, hi, false),
    decreases hi - lo,
{
    if lo < hi {
        lemma_count_files_le(nodes, lo, hi - 1, need_done);
    }
}

proof fn lemma_first_shallow_at(nodes: Seq<DlNode>, i: int, from: int, j: int)
    requires
        0 <= i < nodes.len(),
        i < from <= j <= nodes.len(),
        forall|m: int| from <= m < j ==> #[trigger] nodes[m].depth > nodes[i].depth,
        j < nodes.len() ==> nodes[j].depth <= nodes[i].depth,
    ensures
        first_shallow(nodes, i, from) == j,
    decreases j - from,
{
    if from < j {
        lemma_first_shallow_at(nodes, i, from + 1, j);
    }
}

/// Counts the file rows below directory row `i`.
fn subtree_counts(nodes: &Vec<DlNode>, i: usize) -> (r: (usize, usize))
    requires
        i < nodes@.len(),
    ensures
        r.0 == count_files(nodes@, i + 1, subtree_end(nodes@, i as int), true),
        r.1 == count_files(nodes@, i + 1, subtree_end(nodes@, i as int), false),
{
    let len = nodes.len();
    let d = nodes[i].depth;
    let mut j: usize = i + 1;
    let mut done_n: usize = 0;
    let mut total_n: usize = 0;
    while j < nodes.len() && nodes[j].depth > d
        invariant
            i < j <= nodes@.len(),
            d == nodes@[i as int].depth,
            forall|m: int| i < m < j ==> #[trigger] nodes@[m].depth > d,
            done_n == count_files(nodes@, i + 1, j as int, true),
            total_n == count_files(nodes@, i + 1, j as int, false),
        decreases nodes@.len() - j,
    {
        proof {
            lemma_count_files_le(nodes@, i + 1, j as int, false);
            lemma_count_files_le(nodes@, i + 1, j as int, true);
        }
        let n = &nodes[j];
        if !n.is_dir && n.rid.is_some() {
            total_n = total_n + 1;
            if n.done {
                done_n = done_n + 1;
            }
        }
        j += 1;
    }
    proof {
        lemma_first_shallow_at(nodes@, i as int, i + 1, j as int);
    }
    (done_n, total_n)
}

/// Fills in, for each directory row, the finished and total file counts of its
/// subtree, from the `done` marks of the file rows. The rows must be in
/// pre-order; only the directory rows' counts change.
pub fn compute_dir_counts(nodes: &mut Vec<DlNode>)
    ensures
        final(nodes)@.len() == old(nodes)@.len(),
        forall|i: int| 0 <= i < old(nodes)@.len() ==> #[trigger] final(nodes)@[i] == counted_row(old(nodes)@, i),
{
    let ghost orig = nodes@;
    let mut counts: Vec<(usize, usize)> = Vec::new();
    let mut i: usize = 0;
    while i < nodes.len()
        invariant
            nodes@ == orig,
            0 <= i <= orig.len(),
            counts@.len() == i,
            forall|k: int| 0 <= k < i ==> #[trigger] counts@[k] == (
                count_files(orig, k + 1, subtree_end(orig, k), true) as usize,
                count_files(orig, k + 1, subtree_end(orig, k), false) as usize,
            ),
        decreases orig.len() - i,
    {
        let c = subtree_counts(nodes, i);
        counts.push(c);
        i += 1;
    }
    let mut i: usize = 0;
    while i < nodes.len()
        invariant
            nodes@.len() == orig.len(),
            counts@.len() == orig.len(),
            0 <= i <= orig.len(),
            forall|k: int| 0 <= k < orig.len() ==> #[trigger] counts@[k] == (
                count_files(orig, k + 1, subtree_end(orig, k), true) as usize,
                count_files(orig, k + 1, subtree_end(orig, k), false) as usize,
            ),
            forall|k: int| 0 <= k < i ==> #[trigger] nodes@[k] == counted_row(orig, k),
            forall|k: int| i <= k < orig.len() ==> #[trigger] nodes@[k] == orig[k],
        decreases orig.len() - i,
    {
        if nodes[i].is_dir {
            let (d, t) = counts[i];
            let mut n = nodes.remove(i);
            n.files_done = d;
            n.files_total = t;
            nodes.insert(i, n);
        }
        i += 1;
    }
}

/// The colour family a status text is shown in.
#[derive(Debug, Clone, Copy, PartialEq, Eq)]
pub enum Tone {
    /// Waiting.
    Muted,
    /// In progress.
    Active,
    Good,
    Bad,
}

/// The status text of a download row (a folder card adds its "k/N files"
/// itself): a queued folder is still being scanned; a failure shows its reason.
pub fn dl_status_text(j: &DlJob) -> (r: (Tone, String))
    ensures
        match j.status {
            DlStatus::Queued => r.0 == Tone::Muted && r.1@ == if j.folder_id is Some {
                "扫描目录中…"@
            } else {
                "排队中"@
            },
            DlStatus::Running => r.0 == Tone::Active && r.1@ == "下载中"@,
            DlStatus::Done => r.0 == Tone::Good && r.1@ == "已完成"@,
            DlStatus::Failed(w) => r.0 == Tone::Bad && r.1@ == w@,
        },
{
    match &j.status {
        DlStatus::Queued => {
            if j.is_folder() {
                (Tone::Muted, "扫描目录中…".to_owned())
            } else {
                (Tone::Muted, "排队中".to_owned())
            }
        },
        DlStatus::Running => (Tone::Active, "下载中".to_owned()),
        DlStatus::Done => (Tone::Good, "已完成".to_owned()),
        DlStatus::Failed(w) => (Tone::Bad, w.clone()),
    }
}

/// The status text of an upload row; a failure shows its reason.
pub fn ul_status_text(j: &UlJob) -> (r: (Tone, String))
    ensures
        match j.status {
            UlStatus::Queued => r.0 == Tone::Muted && r.1@ == "排队中"@,
            UlStatus::Running => r.0 == Tone::Active && r.1@ == "上传中"@,
            UlStatus::Done => r.0 == Tone::Good && r.1@ == "已完成"@,
            UlStatus::Failed(w) => r.0 == Tone::Bad && r.1@ == w@,
        },
{
    match &j.status {
        UlStatus::Queued => (Tone::Muted, "排队中".to_owned()),
        UlStatus::Running => (Tone::Active, "上传中".to_owned()),
        UlStatus::Done => (Tone::Good, "已完成".to_owned()),
        UlStatus::Failed(w) => (Tone::Bad, w.clone()),
    }
}

} // verus!
