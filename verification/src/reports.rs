//! What the transfer worker's reports do to the job tables.
//!
//! Each report changes the reported job and, for a file of a folder
//! download, rolls the folder up again. When a job (or a folder) reaches its
//! final status, the caller is asked to write its history record: a report
//! returns the job id and the recorded outcome, and the caller stamps the
//! record with `table::take_record`.

use std::collections::BTreeMap;

use vstd::prelude::*;

use crate::jobs::{DlJob, DlNode, DlStatus, UlJob, UlStatus};
use crate::settings::{DownloadRecordStatus, UploadRecord, UploadRecordStatus};
use crate::jobs::compute_dir_counts;
use crate::msg::FolderItem;
use crate::table::{
    clone_stack, counts_filled, enqueue_download_item, folder_rolled, leave_folder,
    lemma_counts_filled, recompute_folder, rolled_up, table_ok, write_due,
};

verus! {

broadcast use {vstd::std_specs::btree::group_btree_axioms, vstd::laws_cmp::group_laws_cmp};

/// A history record to write: the job, and the outcome to record.
pub open spec fn write_for(w: Option<(u64, DownloadRecordStatus)>, id: u64, rs: Option<DownloadRecordStatus>) -> bool {
    match rs {
        Some(s) => w == Some((id, s)),
        None => w is None,
    }
}

/// Table `m1` after job `id` became `j1` in table `m0`, and what that asks
/// for: a file of a folder rolls the folder up; a top-level job asks for its
/// record with `own` when given.
pub open spec fn after_update(
    m0: Map<u64, DlJob>,
    m1: Map<u64, DlJob>,
    id: u64,
    j1: DlJob,
    own: Option<DownloadRecordStatus>,
    w: Option<(u64, DownloadRecordStatus)>,
) -> bool {
    let mid = m0.insert(id, j1);
    match j1.parent {
        Some(p) => exists|rs: Option<DownloadRecordStatus>| folder_rolled(mid, m1, p, rs) && #[trigger] write_for(w, p, rs),
        None => m1 == mid && write_for(w, id, own),
    }
}

/// Puts the updated job `j` back as job `id`, then rolls its folder up when
/// it is a file of one.
fn put_back(
    jobs: &mut BTreeMap<u64, DlJob>,
    id: u64,
    j: DlJob,
    own: Option<DownloadRecordStatus>,
) -> (w: Option<(u64, DownloadRecordStatus)>)
    requires
        table_ok(old(jobs)@.insert(id, j)),
    ensures
        table_ok(final(jobs)@),
        after_update(old(jobs)@, final(jobs)@, id, j, own, w),
{
    let parent = j.parent;
    let ghost j0 = j;
    jobs.insert(id, j);
    match parent {
        Some(p) => {
            let ghost mid = jobs@;
            let rs = recompute_folder(jobs, p);
            proof {
                assert(folder_rolled(mid, jobs@, p, rs));
            }
            match rs {
                Some(s) => {
                    let w = Some((p, s));
                    proof {
                        assert(write_for(w, p, rs));
                    }
                    w
                },
                None => {
                    proof {
                        assert(write_for(None, p, rs));
                    }
                    None
                },
            }
        },
        None => match own {
            Some(s) => Some((id, s)),
            None => None,
        },
    }
}

/// Download progress for job `id`: a queued job starts running, a known
/// total is taken, and the bytes done only grow. (The speed is sampled by
/// the caller.)
pub fn dl_progress(jobs: &mut BTreeMap<u64, DlJob>, id: u64, total: u64, done: u64) -> (w: Option<(u64, DownloadRecordStatus)>)
    requires
        table_ok(old(jobs)@),
    ensures
        table_ok(final(jobs)@),
        !old(jobs)@.contains_key(id) ==> final(jobs)@ == old(jobs)@ && w is None,
        old(jobs)@.contains_key(id) ==> {
            let j = old(jobs)@[id];
            after_update(
                old(jobs)@,
                final(jobs)@,
                id,
                DlJob {
                    status: if j.status is Queued {
                        DlStatus::Running
                    } else {
                        j.status
                    },
                    total: if total > 0 {
                        total
                    } else {
                        j.total
                    },
                    done: if done > j.done {
                        done
                    } else {
                        j.done
                    },
                    ..j
                },
                None,
                w,
            )
        },
{
    let mut j = match jobs.remove(&id) {
        Some(j) => j,
        None => return None,
    };
    if matches!(j.status, DlStatus::Queued) {
        j.status = DlStatus::Running;
    }
    if total > 0 {
        j.total = total;
    }
    if done > j.done {
        j.done = done;
    }
    let ghost m1 = jobs@;
    let ghost j1 = j;
    let w = put_back(jobs, id, j, None);
    proof {
        assert(m1.insert(id, j1) =~= old(jobs)@.insert(id, j1));
    }
    w
}

/// Job `id` finished after `bytes` bytes: it is done, with `bytes` as its
/// size when none was known. A single file asks for its history record.
pub fn dl_finished(jobs: &mut BTreeMap<u64, DlJob>, id: u64, bytes: u64) -> (w: Option<(u64, DownloadRecordStatus)>)
    requires
        table_ok(old(jobs)@),
    ensures
        table_ok(final(jobs)@),
        !old(jobs)@.contains_key(id) ==> final(jobs)@ == old(jobs)@ && w is None,
        old(jobs)@.contains_key(id) ==> {
            let j = old(jobs)@[id];
            after_update(
                old(jobs)@,
                final(jobs)@,
                id,
                DlJob {
                    status: DlStatus::Done,
                    done: bytes,
                    total: if bytes > 0 && j.total == 0 {
                        bytes
                    } else {
                        j.total
                    },
                    ..j
                },
                Some(DownloadRecordStatus::Done),
                w,
            )
        },
{
    let mut j = match jobs.remove(&id) {
        Some(j) => j,
        None => return None,
    };
    j.status = DlStatus::Done;
    j.done = bytes;
    if bytes > 0 && j.total == 0 {
        j.total = bytes;
    }
    let ghost m1 = jobs@;
    let ghost j1 = j;
    let w = put_back(jobs, id, j, Some(DownloadRecordStatus::Done));
    proof {
        assert(m1.insert(id, j1) =~= old(jobs)@.insert(id, j1));
    }
    w
}

/// Job `id` failed with reason `what`. A single file asks for its history
/// record.
pub fn dl_failed(jobs: &mut BTreeMap<u64, DlJob>, id: u64, what: String) -> (w: Option<(u64, DownloadRecordStatus)>)
    requires
        table_ok(old(jobs)@),
    ensures
        table_ok(final(jobs)@),
        !old(jobs)@.contains_key(id) ==> final(jobs)@ == old(jobs)@ && w is None,
        old(jobs)@.contains_key(id) ==> after_update(
            old(jobs)@,
            final(jobs)@,
            id,
            DlJob { status: DlStatus::Failed(what), ..old(jobs)@[id] },
            Some(DownloadRecordStatus::Failed(what)),
            w,
        ),
{
    let mut j = match jobs.remove(&id) {
        Some(j) => j,
        None => return None,
    };
    j.status = DlStatus::Failed(what.clone());
    let ghost m1 = jobs@;
    let ghost j1 = j;
    let w = put_back(jobs, id, j, Some(DownloadRecordStatus::Failed(what)));
    proof {
        assert(m1.insert(id, j1) =~= old(jobs)@.insert(id, j1));
    }
    w
}

/// Scanning folder job `id` failed with reason `what`: it failed, and asks
/// for its history record.
pub fn folder_scan_failed(jobs: &mut BTreeMap<u64, DlJob>, id: u64, what: String) -> (w: Option<(u64, DownloadRecordStatus)>)
    requires
        table_ok(old(jobs)@),
    ensures
        table_ok(final(jobs)@),
        !old(jobs)@.contains_key(id) ==> final(jobs)@ == old(jobs)@ && w is None,
        old(jobs)@.contains_key(id) ==> {
            &&& final(jobs)@ == old(jobs)@.insert(id, DlJob { status: DlStatus::Failed(what), ..old(jobs)@[id] })
            &&& w == Some((id, DownloadRecordStatus::Failed(what)))
        },
{
    let mut j = match jobs.remove(&id) {
        Some(j) => j,
        None => return None,
    };
    j.status = DlStatus::Failed(what.clone());
    jobs.insert(id, j);
    Some((id, DownloadRecordStatus::Failed(what)))
}

/// Job `id` was cancelled: it leaves the table with no history record; a file
/// of a folder also leaves the folder's tree, and the folder is rolled up again.
pub fn dl_cancelled(jobs: &mut BTreeMap<u64, DlJob>, id: u64) -> (w: Option<(u64, DownloadRecordStatus)>)
    requires
        table_ok(old(jobs)@),
    ensures
        table_ok(final(jobs)@),
        !old(jobs)@.contains_key(id) ==> final(jobs)@ == old(jobs)@ && w is None,
        old(jobs)@.contains_key(id) ==> match old(jobs)@[id].parent {
            Some(p) if p != id && old(jobs)@.contains_key(p) => {
                let pj = old(jobs)@[p];
                let tree = pj.nodes@.filter(|n: DlNode| n.rid != Some(id));
                &&& final(jobs)@.dom() == old(jobs)@.dom().remove(id)
                &&& forall|k: u64|
                    k != p && k != id && old(jobs)@.contains_key(k) ==> final(jobs)@[k] == old(jobs)@[k]
                &&& if pj.folder_id is Some {
                    &&& rolled_up(final(jobs)@[p], pj, tree, old(jobs)@.remove(id))
                    &&& exists|rs: Option<DownloadRecordStatus>|
                        write_due(rs, final(jobs)@[p].status, pj.record_id@) && #[trigger] write_for(w, p, rs)
                } else {
                    &&& final(jobs)@[p] == (DlJob { nodes: final(jobs)@[p].nodes, ..pj })
                    &&& final(jobs)@[p].nodes@ == tree
                    &&& w is None
                }
            },
            _ => final(jobs)@ == old(jobs)@.remove(id) && w is None,
        },
{
    let parent = match jobs.remove(&id) {
        Some(j) => j.parent,
        None => return None,
    };
    match parent {
        Some(p) => {
            if p == id || !jobs.contains_key(&p) {
                return None;
            }
            let rs = leave_folder(jobs, p, id);
            match rs {
                Some(s) => {
                    let w = Some((p, s));
                    proof {
                        assert(write_for(w, p, rs));
                    }
                    w
                },
                None => {
                    proof {
                        assert(write_for(None, p, rs));
                    }
                    None
                },
            }
        },
        None => None,
    }
}

/// Upload progress for job `id`: a queued job starts running, a known total
/// is taken, and the bytes done only grow. (The speed is sampled by the caller.)
pub fn ul_progress(ul_jobs: &mut BTreeMap<u64, UlJob>, id: u64, total: u64, done: u64)
    ensures
        !old(ul_jobs)@.contains_key(id) ==> final(ul_jobs)@ == old(ul_jobs)@,
        old(ul_jobs)@.contains_key(id) ==> {
            let j = old(ul_jobs)@[id];
            final(ul_jobs)@ == old(ul_jobs)@.insert(
                id,
                UlJob {
                    status: if j.status is Queued {
                        UlStatus::Running
                    } else {
                        j.status
                    },
                    total: if total > 0 {
                        total
                    } else {
                        j.total
                    },
                    done: if done > j.done {
                        done
                    } else {
                        j.done
                    },
                    ..j
                },
            )
        },
{
    let mut j = match ul_jobs.remove(&id) {
        Some(j) => j,
        None => return,
    };
    if matches!(j.status, UlStatus::Queued) {
        j.status = UlStatus::Running;
    }
    if total > 0 {
        j.total = total;
    }
    if done > j.done {
        j.done = done;
    }
    ul_jobs.insert(id, j);
}

/// Directory upload `id` reports `done` of `total` files, now at `current`;
/// a queued job starts running.
pub fn ul_files(ul_jobs: &mut BTreeMap<u64, UlJob>, id: u64, done: usize, total: usize, current: String)
    ensures
        !old(ul_jobs)@.contains_key(id) ==> final(ul_jobs)@ == old(ul_jobs)@,
        old(ul_jobs)@.contains_key(id) ==> {
            let j = old(ul_jobs)@[id];
            final(ul_jobs)@ == old(ul_jobs)@.insert(
                id,
                UlJob {
                    files_done: done,
                    files_total: total,
                    current,
                    status: if j.status is Queued {
                        UlStatus::Running
                    } else {
                        j.status
                    },
                    ..j
                },
            )
        },
{
    let mut j = match ul_jobs.remove(&id) {
        Some(j) => j,
        None => return,
    };
    j.files_done = done;
    j.files_total = total;
    j.current = current;
    if matches!(j.status, UlStatus::Queued) {
        j.status = UlStatus::Running;
    }
    ul_jobs.insert(id, j);
}

/// The history record of upload job `j` with outcome `status`, id `rec_id`
/// and time `at`.
pub open spec fn upload_record_of(rec: UploadRecord, j: UlJob, status: UploadRecordStatus, rec_id: String, at: u64) -> bool {
    &&& rec.local_path@ == j.local_path@
    &&& rec.name@ == j.name@
    &&& rec.parent == j.parent
    &&& rec.dest_stack@ == j.dest_stack@
    &&& rec.total == j.total
    &&& rec.done == j.done
    &&& rec.status == status
    &&& rec.is_dir == j.is_dir
    &&& rec.at == at
    &&& rec.timestamp == rec_id
}

fn upload_record(j: &UlJob, status: UploadRecordStatus, rec_id: String, at: u64) -> (rec: UploadRecord)
    ensures
        upload_record_of(rec, *j, status, rec_id, at),
{
    UploadRecord {
        local_path: j.local_path.clone(),
        name: j.name.clone(),
        parent: match &j.parent {
            Some(p) => Some(p.clone()),
            None => None,
        },
        dest_stack: clone_stack(&j.dest_stack),
        total: j.total,
        done: j.done,
        status,
        is_dir: j.is_dir,
        at,
        timestamp: rec_id,
    }
}

/// Upload `id` finished: it is done (all of a known total), takes the
/// history id `rec_id` and time `at`, and its history record is returned.
pub fn ul_finished(ul_jobs: &mut BTreeMap<u64, UlJob>, id: u64, rec_id: String, at: u64) -> (r: Option<UploadRecord>)
    ensures
        !old(ul_jobs)@.contains_key(id) ==> final(ul_jobs)@ == old(ul_jobs)@ && r is None,
        old(ul_jobs)@.contains_key(id) ==> {
            let j = old(ul_jobs)@[id];
            let j1 = UlJob {
                status: UlStatus::Done,
                done: if j.total > 0 {
                    j.total
                } else {
                    j.done
                },
                record_id: rec_id,
                at: Some(at),
                ..j
            };
            &&& final(ul_jobs)@ == old(ul_jobs)@.insert(id, j1)
            &&& r matches Some(rec) && upload_record_of(rec, j1, UploadRecordStatus::Done, rec_id, at)
        },
{
    let mut j = match ul_jobs.remove(&id) {
        Some(j) => j,
        None => return None,
    };
    j.status = UlStatus::Done;
    if j.total > 0 {
        j.done = j.total;
    }
    j.record_id = rec_id.clone();
    j.at = Some(at);
    let rec = upload_record(&j, UploadRecordStatus::Done, rec_id, at);
    ul_jobs.insert(id, j);
    Some(rec)
}

/// Upload `id` failed with reason `what`: it takes the history id `rec_id`
/// and time `at`, and its history record is returned.
pub fn ul_failed(ul_jobs: &mut BTreeMap<u64, UlJob>, id: u64, what: String, rec_id: String, at: u64) -> (r: Option<UploadRecord>)
    ensures
        !old(ul_jobs)@.contains_key(id) ==> final(ul_jobs)@ == old(ul_jobs)@ && r is None,
        old(ul_jobs)@.contains_key(id) ==> {
            let j1 = UlJob {
                status: UlStatus::Failed(what),
                record_id: rec_id,
                at: Some(at),
                ..old(ul_jobs)@[id]
            };
            &&& final(ul_jobs)@ == old(ul_jobs)@.insert(id, j1)
            &&& r matches Some(rec) && upload_record_of(rec, j1, UploadRecordStatus::Failed(what), rec_id, at)
        },
{
    let mut j = match ul_jobs.remove(&id) {
        Some(j) => j,
        None => return None,
    };
    j.status = UlStatus::Failed(what.clone());
    j.record_id = rec_id.clone();
    j.at = Some(at);
    let rec = upload_record(&j, UploadRecordStatus::Failed(what), rec_id, at);
    ul_jobs.insert(id, j);
    Some(rec)
}

/// Upload `id` was cancelled: it leaves the table with no history record.
pub fn ul_cancelled(ul_jobs: &mut BTreeMap<u64, UlJob>, id: u64)
    ensures
        final(ul_jobs)@ == old(ul_jobs)@.remove(id),
{
    ul_jobs.remove(&id);
}

/// Number of file entries among the first `k` scanned entries.
pub open spec fn files_in(items: Seq<FolderItem>, k: int) -> nat
    decreases k,
{
    if k <= 0 {
        0
    } else {
        files_in(items, k - 1) + if !items[k - 1].is_dir {
            1nat
        } else {
            0nat
        }
    }
}

/// The tree row of a scanned entry: a directory shown open, a file row
/// pointing at job `rid`; nothing done yet.
pub open spec fn node_of_item(n: DlNode, it: FolderItem, rid: Option<u64>) -> bool {
    &&& n.is_dir == it.is_dir
    &&& n.name@ == it.name@
    &&& n.depth == it.depth
    &&& n.rid == rid
    &&& n.expanded == it.is_dir
    &&& !n.done
    &&& !it.is_dir ==> n.files_done == 0 && n.files_total == 0
}

/// What a finished folder scan asks of the caller.
#[derive(Debug)]
pub enum Scan {
    /// The job is not a folder download: nothing changed.
    Ignored,
    /// Only directories were found: the folder is done (write its record).
    Empty,
    /// File downloads to start, in tree order: (new job id, drive id, name,
    /// target directory).
    Started(Vec<(u64, String, String, String)>),
}

proof fn lemma_files_in_mono(items: Seq<FolderItem>, a: int, b: int)
    requires
        0 <= a <= b,
    ensures
        files_in(items, a) <= files_in(items, b),
        files_in(items, b) - files_in(items, a) <= b - a,
    decreases b - a,
{
    if a < b {
        lemma_files_in_mono(items, a, b - 1);
    }
}

/// With no file among the first `n` entries, they are all directories.
proof fn lemma_no_files(items: Seq<FolderItem>, n: int)
    requires
        0 <= n <= items.len(),
        files_in(items, n) == 0,
    ensures
        forall|k: int| 0 <= k < n ==> (#[trigger] items[k]).is_dir,
    decreases n,
{
    if n > 0 {
        lemma_no_files(items, n - 1);
    }
}

/// Whether `j` is the new job for scanned file entry `it` of folder `id`.
pub open spec fn job_of_item(j: DlJob, it: FolderItem, id: u64) -> bool {
    &&& j.file_id@ == it.file_id@
    &&& j.name@ == it.name@
    &&& j.dir@ == it.dir@
    &&& j.status == DlStatus::Queued
    &&& j.parent == Some(id)
    &&& j.folder_id is None
    &&& j.nodes@.len() == 0
}

/// Adds a job for each scanned file of folder `id`, numbered on from
/// `last_id` in order; returns the downloads to start.
#[verifier::spinoff_prover]
#[verifier::rlimit(80)]
fn scan_jobs(
    jobs: &mut BTreeMap<u64, DlJob>,
    last_id: &mut u64,
    id: u64,
    items: &Vec<FolderItem>,
) -> (starts: Vec<(u64, String, String, String)>)
    requires
        table_ok(old(jobs)@),
        forall|q: u64| old(jobs)@.contains_key(q) ==> q <= *old(last_id),
        *old(last_id) + files_in(items@, items@.len() as int) <= u64::MAX,
    ensures
        *final(last_id) == *old(last_id) + files_in(items@, items@.len() as int),
        starts@.len() == files_in(items@, items@.len() as int),
        forall|q: u64|
            #![trigger final(jobs)@.contains_key(q)]
            final(jobs)@.contains_key(q) <==> (old(jobs)@.contains_key(q) || (*old(last_id) < q <= *final(last_id))),
        forall|q: u64| old(jobs)@.contains_key(q) ==> final(jobs)@[q] == old(jobs)@[q],
        table_ok(final(jobs)@),
        forall|q: int|
            0 <= q < items@.len() && !(#[trigger] items@[q]).is_dir ==> {
                let it = items@[q];
                let nid = (*old(last_id) + 1 + files_in(items@, q)) as u64;
                let st = starts@[files_in(items@, q) as int];
                &&& st.0 == nid && st.1@ == it.file_id@ && st.2@ == it.name@ && st.3@ == it.dir@
                &&& job_of_item(final(jobs)@[nid], it, id)
            },
{
    let ghost base = *last_id;
    let mut starts: Vec<(u64, String, String, String)> = Vec::new();
    let mut k: usize = 0;
    while k < items.len()
        invariant
            0 <= k <= items@.len(),
            base == *old(last_id),
            base + files_in(items@, items@.len() as int) <= u64::MAX,
            *last_id == base + files_in(items@, k as int),
            starts@.len() == files_in(items@, k as int),
            forall|q: u64| old(jobs)@.contains_key(q) ==> q <= base,
            forall|q: u64|
                #![trigger jobs@.contains_key(q)]
                jobs@.contains_key(q) <==> (old(jobs)@.contains_key(q) || (base < q <= *last_id)),
            forall|q: u64| old(jobs)@.contains_key(q) ==> jobs@[q] == old(jobs)@[q],
            table_ok(jobs@),
            forall|q: int|
                0 <= q < k && !(#[trigger] items@[q]).is_dir ==> {
                    let it = items@[q];
                    let nid = (base + 1 + files_in(items@, q)) as u64;
                    let st = starts@[files_in(items@, q) as int];
                    &&& st.0 == nid && st.1@ == it.file_id@ && st.2@ == it.name@ && st.3@ == it.dir@
                    &&& job_of_item(jobs@[nid], it, id)
                },
        decreases items@.len() - k,
    {
        proof {
            lemma_files_in_mono(items@, k as int + 1, items@.len() as int);
        }
        let it = &items[k];
        if !it.is_dir {
            let ghost before = jobs@;
            let ghost s0 = starts@;
            let cid = enqueue_download_item(
                jobs,
                last_id,
                it.file_id.clone(),
                it.name.clone(),
                it.dir.clone(),
                Some(id),
            );
            starts.push((cid, it.file_id.clone(), it.name.clone(), it.dir.clone()));
            proof {
                assert forall|q: int|
                    0 <= q < k && !(#[trigger] items@[q]).is_dir implies jobs@[(base + 1 + files_in(items@, q)) as u64]
                    == before[(base + 1 + files_in(items@, q)) as u64] && starts@[files_in(items@, q) as int]
                    == s0[files_in(items@, q) as int] by {
                    lemma_files_in_mono(items@, q + 1, k as int);
                }
                let fk = files_in(items@, k as int);
                assert(cid == (base + 1 + fk) as u64);
                assert(starts@[fk as int] == (cid, it.file_id, it.name, it.dir));
                assert(job_of_item(jobs@[cid], items@[k as int], id));
            }
        }
        k += 1;
    }
    starts
}

/// The tree rows of scanned entries, file rows numbered on from `base`.
fn scan_nodes(items: &Vec<FolderItem>, base: u64) -> (nodes: Vec<DlNode>)
    requires
        base + files_in(items@, items@.len() as int) <= u64::MAX,
    ensures
        nodes@.len() == items@.len(),
        forall|q: int|
            0 <= q < items@.len() ==> node_of_item(
                #[trigger] nodes@[q],
                items@[q],
                if items@[q].is_dir {
                    None
                } else {
                    Some((base + 1 + files_in(items@, q)) as u64)
                },
            ) && (nodes@[q].is_dir ==> nodes@[q].files_done == 0 && nodes@[q].files_total == 0),
{
    let mut nodes: Vec<DlNode> = Vec::new();
    let mut next: u64 = base;
    let mut k: usize = 0;
    while k < items.len()
        invariant
            0 <= k <= items@.len(),
            base + files_in(items@, items@.len() as int) <= u64::MAX,
            next == base + files_in(items@, k as int),
            nodes@.len() == k,
            forall|q: int|
                0 <= q < k ==> node_of_item(
                    #[trigger] nodes@[q],
                    items@[q],
                    if items@[q].is_dir {
                        None
                    } else {
                        Some((base + 1 + files_in(items@, q)) as u64)
                    },
                ) && (nodes@[q].is_dir ==> nodes@[q].files_done == 0 && nodes@[q].files_total == 0),
        decreases items@.len() - k,
    {
        proof {
            lemma_files_in_mono(items@, k as int + 1, items@.len() as int);
        }
        let it = &items[k];
        if it.is_dir {
            nodes.push(DlNode {
                is_dir: true,
                name: it.name.clone(),
                depth: it.depth,
                rid: None,
                expanded: true,
                files_done: 0,
                files_total: 0,
                done: false,
            });
        } else {
            next = next + 1;
            nodes.push(DlNode {
                is_dir: false,
                name: it.name.clone(),
                depth: it.depth,
                rid: Some(next),
                expanded: false,
                files_done: 0,
                files_total: 0,
                done: false,
            });
        }
        k += 1;
    }
    nodes
}

#[verifier::spinoff_prover]
#[verifier::rlimit(80)]
/// Folder job `id` was scanned: its tree in pre-order (`items`) and total
/// size. With no file at all the folder is done at once. Otherwise each file
/// gets a new job, numbered on from `last_id` in tree order, which its row
/// points at, and the folder runs.
pub fn folder_scanned(
    jobs: &mut BTreeMap<u64, DlJob>,
    last_id: &mut u64,
    id: u64,
    items: Vec<FolderItem>,
    total_bytes: u64,
) -> (r: Scan)
    requires
        table_ok(old(jobs)@),
        forall|k: u64| old(jobs)@.contains_key(k) ==> k <= *old(last_id),
        *old(last_id) + items@.len() <= u64::MAX,
    ensures
        table_ok(final(jobs)@),
        !(old(jobs)@.contains_key(id) && old(jobs)@[id].folder_id is Some) ==> final(jobs)@ == old(jobs)@
            && *final(last_id) == *old(last_id) && r is Ignored,
        old(jobs)@.contains_key(id) && old(jobs)@[id].folder_id is Some ==> {
            let j = old(jobs)@[id];
            let base = *old(last_id);
            let nf = files_in(items@, items@.len() as int);
            let ns = final(jobs)@[id].nodes@;
            &&& ns.len() == items@.len()
            &&& if nf == 0 {
                &&& final(jobs)@ == old(jobs)@.insert(
                    id,
                    DlJob {
                        status: DlStatus::Done,
                        total: 0,
                        done: 0,
                        nodes: final(jobs)@[id].nodes,
                        files_done: 0,
                        files_total: 0,
                        ..j
                    },
                )
                &&& forall|k: int| 0 <= k < ns.len() ==> node_of_item(#[trigger] ns[k], items@[k], None)
                    && ns[k].files_done == 0 && ns[k].files_total == 0
                &&& *final(last_id) == base
                &&& r is Empty
            } else {
                &&& *final(last_id) == base + nf
                &&& final(jobs)@.dom() =~= old(jobs)@.dom().union(Set::new(|k: u64| base < k <= base + nf))
                &&& forall|k: u64| k != id && old(jobs)@.contains_key(k) ==> final(jobs)@[k] == old(jobs)@[k]
                &&& final(jobs)@[id] == (DlJob {
                    status: DlStatus::Running,
                    total: total_bytes,
                    done: 0,
                    nodes: final(jobs)@[id].nodes,
                    files_done: 0,
                    files_total: nf as usize,
                    ..j
                })
                &&& counts_filled(ns)
                &&& r matches Scan::Started(starts) && starts@.len() == nf && forall|k: int|
                    0 <= k < items@.len() ==> {
                        let it = #[trigger] items@[k];
                        let nid = (base + 1 + files_in(items@, k)) as u64;
                        &&& node_of_item(
                            ns[k],
                            it,
                            if it.is_dir {
                                None
                            } else {
                                Some(nid)
                            },
                        )
                        &&& !it.is_dir ==> {
                            let st = starts@[files_in(items@, k) as int];
                            &&& st.0 == nid && st.1@ == it.file_id@ && st.2@ == it.name@ && st.3@ == it.dir@
                            &&& final(jobs)@[nid].file_id@ == it.file_id@
                            &&& final(jobs)@[nid].name@ == it.name@
                            &&& final(jobs)@[nid].dir@ == it.dir@
                            &&& final(jobs)@[nid].status == DlStatus::Queued
                            &&& final(jobs)@[nid].parent == Some(id)
                            &&& final(jobs)@[nid].folder_id is None
                            &&& final(jobs)@[nid].nodes@.len() == 0
                        }
                    }
            }
        },
{
    let is_folder = match jobs.get(&id) {
        Some(j) => j.is_folder(),
        None => false,
    };
    if !is_folder {
        return Scan::Ignored;
    }
    let ghost m0 = jobs@;
    let ghost base = *last_id;
    proof {
        lemma_files_in_mono(items@, 0, items@.len() as int);
    }
    let starts = scan_jobs(jobs, last_id, id, &items);
    let mut nodes = scan_nodes(&items, *last_id - starts.len() as u64);
    let nf = starts.len();
    let ghost m1 = jobs@;
    let mut j = jobs.remove(&id).unwrap();
    if nf == 0 {
        proof {
            lemma_no_files(items@, items@.len() as int);
            assert(m1 =~= m0);
        }
        j.status = DlStatus::Done;
        j.total = 0;
        j.done = 0;
        j.nodes = nodes;
        j.files_done = 0;
        j.files_total = 0;
        jobs.insert(id, j);
        return Scan::Empty;
    }
    let n_nodes = nodes.len();
    let ghost raw = nodes@;
    compute_dir_counts(&mut nodes);
    proof {
        assert(raw.len() == n_nodes);
        lemma_counts_filled(raw, nodes@);
    }
    j.nodes = nodes;
    j.total = total_bytes;
    j.done = 0;
    j.files_done = 0;
    j.files_total = nf;
    j.status = DlStatus::Running;
    jobs.insert(id, j);
    Scan::Started(starts)
}

} // verus!
